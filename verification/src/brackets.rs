use vstd::prelude::*;
use crate::ExecError;

verus! {

/// How one instruction counts for bracket matching, whatever the instruction
/// set: a forward branch, a backward branch, or anything else.
#[derive(Debug, Clone, Copy, PartialEq, Eq)]
pub enum Br {
    Open,
    Close,
    Other,
}

pub open spec fn is_open(s: Seq<Br>, k: nat) -> bool {
    k < s.len() && s[k as int] is Open
}

pub open spec fn is_close(s: Seq<Br>, k: nat) -> bool {
    k < s.len() && s[k as int] is Close
}

/// The forward scan for a matching close bracket: starting at `p` with
/// `depth` opens still pending, the first close met at depth zero is the
/// match; every open on the way raises the depth by one.
pub open spec fn find_close(s: Seq<Br>, p: nat, depth: nat) -> Option<nat>
    decreases s.len() - p,
{
    if p >= s.len() {
        None
    } else {
        match s[p as int] {
            Br::Open => find_close(s, p + 1, depth + 1),
            Br::Close => if depth == 0 {
                Some(p)
            } else {
                find_close(s, p + 1, (depth - 1) as nat)
            },
            Br::Other => find_close(s, p + 1, depth),
        }
    }
}

/// The backward scan for a matching open bracket, examining `p` and moving
/// left: the first open met at depth zero is the match; every close on the
/// way raises the depth by one.
pub open spec fn find_open(s: Seq<Br>, p: nat, depth: nat) -> Option<nat>
    decreases p,
{
    if p >= s.len() {
        None
    } else {
        match s[p as int] {
            Br::Open => if depth == 0 {
                Some(p)
            } else if p == 0 {
                None
            } else {
                find_open(s, (p - 1) as nat, (depth - 1) as nat)
            },
            Br::Close => if p == 0 {
                None
            } else {
                find_open(s, (p - 1) as nat, depth + 1)
            },
            Br::Other => if p == 0 {
                None
            } else {
                find_open(s, (p - 1) as nat, depth)
            },
        }
    }
}

/// The match of an open bracket at `k`: the first close at the same depth to
/// its right.
pub open spec fn mtch(s: Seq<Br>, k: nat) -> Option<nat> {
    if is_open(s, k) {
        find_close(s, k + 1, 0)
    } else {
        None
    }
}

/// Whether the open bracket at `i` matches the close bracket at `k`.
pub open spec fn opens_to(s: Seq<Br>, i: nat, k: nat) -> bool {
    is_open(s, i) && mtch(s, i) == Some(k)
}

/// The open bracket whose match a given close bracket is, if any.
pub open spec fn close_partner(s: Seq<Br>, k: nat) -> Option<nat> {
    if exists|i: nat| opens_to(s, i, k) {
        Some(choose|i: nat| opens_to(s, i, k))
    } else {
        None
    }
}

/// Every open bracket has a match.
pub open spec fn all_opens_matched(s: Seq<Br>) -> bool {
    forall|k: nat| is_open(s, k) ==> #[trigger] mtch(s, k) is Some
}

/// Every close bracket is the match of some open bracket.
pub open spec fn all_closes_matched(s: Seq<Br>) -> bool {
    forall|k: nat| is_close(s, k) ==> #[trigger] close_partner(s, k) is Some
}

/// A well-formed program: all brackets pair up.
pub open spec fn well_formed(s: Seq<Br>) -> bool {
    all_opens_matched(s) && all_closes_matched(s)
}

/// The branch table over a program: each matched open points at its close,
/// each matched close back at its open, and every other entry is zero.
pub open spec fn table_entry(s: Seq<Br>, k: nat) -> nat {
    if is_open(s, k) && mtch(s, k) is Some {
        mtch(s, k)->Some_0
    } else if is_close(s, k) && close_partner(s, k) is Some {
        close_partner(s, k)->Some_0
    } else {
        0
    }
}

pub open spec fn spec_table(s: Seq<Br>) -> Seq<usize> {
    Seq::new(s.len(), |k: int| table_entry(s, k as nat) as usize)
}

/// A found close lies to the right of the scan start, inside the program,
/// and is indeed a close bracket.
pub proof fn lemma_find_close_range(s: Seq<Br>, p: nat, depth: nat)
    requires
        find_close(s, p, depth) is Some,
    ensures
        p <= find_close(s, p, depth)->Some_0 < s.len(),
        is_close(s, find_close(s, p, depth)->Some_0),
    decreases s.len() - p,
{
    if p >= s.len() {
    } else {
        match s[p as int] {
            Br::Open => lemma_find_close_range(s, p + 1, depth + 1),
            Br::Close => if depth == 0 {
            } else {
                lemma_find_close_range(s, p + 1, (depth - 1) as nat)
            },
            Br::Other => lemma_find_close_range(s, p + 1, depth),
        }
    }
}

/// A found open lies to the left of the scan start, inside the program,
/// and is indeed an open bracket.
pub proof fn lemma_find_open_range(s: Seq<Br>, p: nat, depth: nat)
    requires
        find_open(s, p, depth) is Some,
    ensures
        find_open(s, p, depth)->Some_0 <= p,
        find_open(s, p, depth)->Some_0 < s.len(),
        is_open(s, find_open(s, p, depth)->Some_0),
    decreases p,
{
    if p >= s.len() {
    } else {
        match s[p as int] {
            Br::Open => if depth == 0 {
            } else if p == 0 {
            } else {
                lemma_find_open_range(s, (p - 1) as nat, (depth - 1) as nat)
            },
            Br::Close => if p == 0 {
            } else {
                lemma_find_open_range(s, (p - 1) as nat, depth + 1)
            },
            Br::Other => if p == 0 {
            } else {
                lemma_find_open_range(s, (p - 1) as nat, depth)
            },
        }
    }
}

/// Scanning from the same start, a deeper scan stops strictly later.
pub proof fn lemma_find_close_depth(s: Seq<Br>, p: nat, d1: nat, d2: nat)
    requires
        d2 < d1,
        find_close(s, p, d1) is Some,
        find_close(s, p, d2) is Some,
    ensures
        find_close(s, p, d2)->Some_0 < find_close(s, p, d1)->Some_0,
    decreases s.len() - p,
{
    if p >= s.len() {
    } else {
        match s[p as int] {
            Br::Open => lemma_find_close_depth(s, p + 1, d1 + 1, d2 + 1),
            Br::Close => {
                if d2 == 0 {
                    lemma_find_close_range(s, p + 1, (d1 - 1) as nat);
                } else {
                    lemma_find_close_depth(s, p + 1, (d1 - 1) as nat, (d2 - 1) as nat);
                }
            },
            Br::Other => lemma_find_close_depth(s, p + 1, d1, d2),
        }
    }
}

/// The depth the forward scan carries when it reaches `q`, having started at
/// `p` with depth `d`.
pub open spec fn scan_depth(s: Seq<Br>, p: nat, d: nat, q: nat) -> nat
    decreases q - p,
{
    if q <= p || p >= s.len() {
        d
    } else {
        match s[p as int] {
            Br::Open => scan_depth(s, p + 1, d + 1, q),
            Br::Close => scan_depth(s, p + 1, (d - 1) as nat, q),
            Br::Other => scan_depth(s, p + 1, d, q),
        }
    }
}

/// A scan that ends at `j` passes every position `q` on the way, still headed
/// for `j`; just after an open bracket its depth is at least one.
pub proof fn lemma_find_close_pass(s: Seq<Br>, p: nat, d: nat, q: nat)
    requires
        find_close(s, p, d) == Some(find_close(s, p, d)->Some_0),
        find_close(s, p, d) is Some,
        p <= q <= find_close(s, p, d)->Some_0,
    ensures
        find_close(s, q, scan_depth(s, p, d, q)) == find_close(s, p, d),
        q > p && s[q - 1] is Open ==> scan_depth(s, p, d, q) >= 1,
    decreases q - p,
{
    let j = find_close(s, p, d)->Some_0;
    lemma_find_close_range(s, p, d);
    if q <= p {
    } else {
        match s[p as int] {
            Br::Open => {
                lemma_find_close_pass(s, p + 1, d + 1, q);
                if q == p + 1 {
                    assert(scan_depth(s, p, d, q) == scan_depth(s, p + 1, d + 1, q));
                    assert(scan_depth(s, p + 1, d + 1, q) == d + 1);
                }
            },
            Br::Close => {
                if d == 0 {
                    assert(j == p);
                    assert(false);
                } else {
                    lemma_find_close_pass(s, p + 1, (d - 1) as nat, q);
                }
            },
            Br::Other => {
                lemma_find_close_pass(s, p + 1, d, q);
            },
        }
    }
}

/// Two distinct open brackets never share a close bracket as their match.
pub proof fn lemma_match_injective(s: Seq<Br>, i1: nat, i2: nat)
    requires
        is_open(s, i1),
        is_open(s, i2),
        i1 != i2,
        mtch(s, i1) is Some,
    ensures
        mtch(s, i1) != mtch(s, i2),
{
    if mtch(s, i1) == mtch(s, i2) {
        let lo = if i1 < i2 { i1 } else { i2 };
        let hi = if i1 < i2 { i2 } else { i1 };
        let j = mtch(s, i1)->Some_0;
        lemma_find_close_range(s, hi + 1, 0);
        lemma_find_close_pass(s, lo + 1, 0, hi + 1);
        let dq = scan_depth(s, lo + 1, 0, hi + 1);
        assert(s[hi as int] is Open);
        assert(dq >= 1);
        lemma_find_close_depth(s, hi + 1, dq, 0);
        assert(false);
    }
}

/// Bracket pairs are properly nested: an open bracket inside a pair closes
/// inside that pair.
pub proof fn lemma_match_nested(s: Seq<Br>, i1: nat, i2: nat)
    requires
        is_open(s, i1),
        is_open(s, i2),
        i1 < i2,
        mtch(s, i1) is Some,
        mtch(s, i2) is Some,
        i2 < mtch(s, i1)->Some_0,
    ensures
        i2 < mtch(s, i2)->Some_0 < mtch(s, i1)->Some_0,
{
    let j1 = mtch(s, i1)->Some_0;
    let j2 = mtch(s, i2)->Some_0;
    lemma_find_close_range(s, i2 + 1, 0);
    lemma_find_close_pass(s, i1 + 1, 0, i2 + 1);
    let dq = scan_depth(s, i1 + 1, 0, i2 + 1);
    assert(dq >= 1);
    lemma_find_close_depth(s, i2 + 1, dq, 0);
}

/// On a well-formed program the branch table is an involution over the
/// bracket indices, and never maps a bracket to itself.
pub proof fn lemma_table_involution(s: Seq<Br>, k: nat)
    requires
        well_formed(s),
        is_open(s, k) || is_close(s, k),
    ensures
        table_entry(s, k) < s.len(),
        table_entry(s, k) != k,
        table_entry(s, table_entry(s, k)) == k,
        is_open(s, k) ==> k < table_entry(s, k) && is_close(s, table_entry(s, k)),
        is_close(s, k) ==> table_entry(s, k) < k && is_open(s, table_entry(s, k)),
{
    if is_open(s, k) {
        assert(mtch(s, k) is Some);
        let j = mtch(s, k)->Some_0;
        lemma_find_close_range(s, k + 1, 0);
        assert(is_close(s, j));
        assert(opens_to(s, k, j));
        assert(close_partner(s, j) is Some);
        let i0 = close_partner(s, j)->Some_0;
        assert(opens_to(s, i0, j));
        if i0 != k {
            lemma_match_injective(s, k, i0);
            assert(false);
        }
        assert(table_entry(s, j) == k);
    } else {
        assert(close_partner(s, k) is Some);
        let i0 = close_partner(s, k)->Some_0;
        assert(opens_to(s, i0, k));
        lemma_find_close_range(s, i0 + 1, 0);
        assert(table_entry(s, k) == i0);
        assert(table_entry(s, i0) == k);
    }
}

/// On a well-formed program the branch table is an involution over the
/// bracket indices: every bracket's entry is a partner bracket on the other
/// side, never itself, and the partner's entry leads straight back.
pub proof fn lemma_spec_table_involution(s: Seq<Br>, k: nat)
    requires
        well_formed(s),
        s.len() <= usize::MAX,
        is_open(s, k) || is_close(s, k),
    ensures
        spec_table(s)[k as int] < s.len(),
        spec_table(s)[k as int] != k,
        spec_table(s)[spec_table(s)[k as int] as int] == k,
        is_open(s, k) ==> k < spec_table(s)[k as int] && is_close(s, spec_table(s)[k as int] as nat),
        is_close(s, k) ==> spec_table(s)[k as int] < k && is_open(s, spec_table(s)[k as int] as nat),
{
    lemma_table_involution(s, k);
    lemma_table_involution(s, table_entry(s, k));
}

/// A branch-table entry of a bracket, on a program whose opens are all
/// matched, points inside the program.
pub proof fn lemma_table_entry_in_bounds(s: Seq<Br>, k: nat)
    requires
        all_opens_matched(s),
        k < s.len(),
        s[k as int] is Open || s[k as int] is Close,
    ensures
        table_entry(s, k) < s.len(),
        spec_table(s)[k as int] < s.len(),
{
    if s[k as int] is Open {
        assert(is_open(s, k));
        assert(mtch(s, k) is Some);
        lemma_find_close_range(s, k + 1, 0);
    } else {
        if close_partner(s, k) is Some {
            let i0 = close_partner(s, k)->Some_0;
            assert(opens_to(s, i0, k));
        }
    }
}

/// Whether the close at `k` is matched by some open left of `bound`.
pub open spec fn has_partner_below(s: Seq<Br>, k: nat, bound: nat) -> bool {
    exists|i: nat| i < bound && opens_to(s, i, k)
}

/// Scan right from the open bracket at `start` for its matching close.
fn scan_close_exec(brs: &[Br], start: usize) -> (r: Option<usize>)
    requires
        start < brs@.len(),
    ensures
        match r {
            Some(j) => find_close(brs@, (start + 1) as nat, 0) == Some(j as nat),
            None => find_close(brs@, (start + 1) as nat, 0) is None,
        },
{
    let n: usize = brs.len();
    let mut p: usize = start + 1;
    let mut depth: usize = 0;
    while p < n
        invariant
            n == brs@.len(),
            start + 1 <= p <= n,
            depth <= p,
            find_close(brs@, (start + 1) as nat, 0) == find_close(brs@, p as nat, depth as nat),
        decreases n - p,
    {
        match brs[p] {
            Br::Open => {
                depth = depth + 1;
            },
            Br::Close => {
                if depth == 0 {
                    return Some(p);
                } else {
                    depth = depth - 1;
                }
            },
            Br::Other => {},
        }
        p = p + 1;
    }
    None
}

/// Build the branch table for a program: bind each open bracket to the
/// first close at its own depth, and that close back to it. The first open
/// bracket without a match is a fatal malformed-program error.
#[verifier::rlimit(60)]
pub fn build_table(brs: &[Br]) -> (r: Result<Vec<usize>, ExecError>)
    ensures
        r matches Ok(t) ==> t@ == spec_table(brs@) && all_opens_matched(brs@),
        r matches Err(e) ==> !all_opens_matched(brs@) && (e matches ExecError::UnmatchedOpen(k)
            && is_open(brs@, k as nat) && mtch(brs@, k as nat) is None && (forall|k2: nat|
            k2 < k && is_open(brs@, k2) ==> (#[trigger] mtch(brs@, k2)) is Some)),
{
    let ghost s = brs@;
    let n: usize = brs.len();
    let mut table: Vec<usize> = Vec::new();
    while table.len() < n
        invariant
            table@.len() <= n,
            forall|k: int| 0 <= k < table@.len() ==> table@[k] == 0,
        decreases n - table@.len(),
    {
        table.push(0);
    }
    let mut ip: usize = 0;
    while ip < n
        invariant
            n == s.len(),
            brs@ == s,
            table@.len() == n,
            ip <= n,
            forall|k: nat| k < ip && is_open(s, k) ==> (#[trigger] mtch(s, k)) is Some,
            forall|k: nat|
                k < ip && is_open(s, k) && mtch(s, k) is Some ==> table@[k as int] == mtch(
                    s,
                    k,
                )->Some_0 && table@[mtch(s, k)->Some_0 as int] == k,
            forall|k: nat|
                k < s.len() && !(is_open(s, k) && k < ip) && !(#[trigger] has_partner_below(
                    s,
                    k,
                    ip as nat,
                )) ==> table@[k as int] == 0,
        decreases n - ip,
    {
        if matches!(brs[ip], Br::Open) {
            match scan_close_exec(brs, ip) {
                Some(j) => {
                    proof {
                        lemma_find_close_range(s, (ip + 1) as nat, 0);
                        assert(mtch(s, ip as nat) == Some(j as nat));
                        assert((j as nat) < s.len() && is_close(s, j as nat));
                        assert forall|k: nat| k < ip && is_open(s, k) implies mtch(s, k) != mtch(
                            s,
                            ip as nat,
                        ) by {
                            lemma_match_injective(s, k, ip as nat);
                        }
                    }
                    table[ip] = j;
                    table[j] = ip;
                    proof {
                        assert forall|k: nat|
                            k < ip + 1 && is_open(s, k) && mtch(s, k) is Some implies table@[k
                            as int] == mtch(s, k)->Some_0 && table@[mtch(s, k)->Some_0 as int] == k
                        by {
                            if k < ip {
                                assert(mtch(s, k) != mtch(s, ip as nat));
                                assert(is_close(s, mtch(s, k)->Some_0)) by {
                                    lemma_find_close_range(s, k + 1, 0);
                                }
                            }
                        }
                        assert forall|k: nat|
                            k < s.len() && !(is_open(s, k) && k < ip + 1) && !(
                            #[trigger] has_partner_below(s, k, (ip + 1) as nat)) implies table@[k
                            as int] == 0 by {
                            assert(opens_to(s, ip as nat, j as nat));
                            if k == j as nat {
                                assert(has_partner_below(s, k, (ip + 1) as nat)) by {
                                    assert((ip as nat) < (ip + 1) as nat && opens_to(
                                        s,
                                        ip as nat,
                                        k,
                                    ));
                                }
                            }
                            assert(k != j as nat);
                            assert(is_open(s, ip as nat));
                            assert(k != ip as nat);
                            assert(!has_partner_below(s, k, ip as nat)) by {
                                if has_partner_below(s, k, ip as nat) {
                                    let i0 = choose|i: nat| i < ip as nat && opens_to(s, i, k);
                                    assert(i0 < (ip + 1) as nat && opens_to(s, i0, k));
                                }
                            }
                        }
                    }
                },
                None => {
                    proof {
                        assert(is_open(s, ip as nat) && mtch(s, ip as nat) is None);
                    }
                    return Err(ExecError::UnmatchedOpen(ip));
                },
            }
        } else {
            proof {
                assert(!is_open(s, ip as nat));
                assert forall|k: nat|
                    k < s.len() && !(is_open(s, k) && k < ip + 1) && !(
                    #[trigger] has_partner_below(s, k, (ip + 1) as nat)) implies table@[k
                    as int] == 0 by {
                    assert(!has_partner_below(s, k, ip as nat)) by {
                        if has_partner_below(s, k, ip as nat) {
                            let i0 = choose|i: nat| i < ip as nat && opens_to(s, i, k);
                            assert(i0 < (ip + 1) as nat && opens_to(s, i0, k));
                        }
                    }
                }
            }
        }
        ip = ip + 1;
    }
    proof {
        assert(all_opens_matched(s));
        assert forall|k: int| 0 <= k < n implies table@[k] == spec_table(s)[k] by {
            let kn = k as nat;
            if is_open(s, kn) {
                assert(mtch(s, kn) is Some);
                assert(table_entry(s, kn) == mtch(s, kn)->Some_0);
            } else if is_close(s, kn) {
                if close_partner(s, kn) is Some {
                    let i0 = close_partner(s, kn)->Some_0;
                    assert(opens_to(s, i0, kn));
                    assert(table@[mtch(s, i0)->Some_0 as int] == i0);
                    assert(table_entry(s, kn) == i0);
                } else {
                    assert(!has_partner_below(s, kn, n as nat)) by {
                        if has_partner_below(s, kn, n as nat) {
                            let i0 = choose|i: nat| i < n as nat && opens_to(s, i, kn);
                            assert(opens_to(s, i0, kn));
                            assert(close_partner(s, kn) is Some);
                        }
                    }
                    assert(table_entry(s, kn) == 0);
                }
            } else {
                assert(!has_partner_below(s, kn, n as nat)) by {
                    if has_partner_below(s, kn, n as nat) {
                        let i0 = choose|i: nat| i < n as nat && opens_to(s, i, kn);
                        lemma_find_close_range(s, i0 + 1, 0);
                    }
                }
                assert(table_entry(s, kn) == 0);
            }
        }
        assert(table@ =~= spec_table(s));
    }
    Ok(table)
}

} // verus!
