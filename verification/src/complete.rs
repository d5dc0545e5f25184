//! Ranking of remembered credentials for autocompletion: candidates are
//! ordered by descending usage count and, among equals, ascending name.

use vstd::prelude::*;
use vstd::utf8::encode_utf8;

use crate::state::{CredView, Credentials};
use crate::state::creds_view;
use crate::state::total_count;
use crate::state::lemma_ledger_insert;
use crate::strutil::str_eq;
use vstd::string::StringSliceAdditionalSpecFns;

verus! {

/// Whether the byte sequence `p` is a prefix of `s`; candidate matching
/// works on the UTF-8 bytes, as string prefix testing does.
pub open spec fn prefix_of(p: Seq<u8>, s: Seq<u8>) -> bool {
    p.len() <= s.len() && s.take(p.len() as int) == p
}

/// Byte-wise lexicographic order, the order `str` comparison uses.
pub open spec fn lex_le(a: Seq<u8>, b: Seq<u8>) -> bool
    decreases a.len(),
{
    if a.len() == 0 {
        true
    } else if b.len() == 0 {
        false
    } else if a[0] < b[0] {
        true
    } else if a[0] > b[0] {
        false
    } else {
        lex_le(a.drop_first(), b.drop_first())
    }
}

/// The candidate order: primarily descending in total count, secondarily
/// ascending in name.
pub open spec fn cand_le(t1: int, d1: Seq<char>, t2: int, d2: Seq<char>) -> bool {
    t1 > t2 || (t1 == t2 && lex_le(encode_utf8(d1), encode_utf8(d2)))
}

/// The total usage count recorded for one domain, over all identities.
pub open spec fn domain_total(s: Seq<CredView>, d: Seq<char>) -> int
    decreases s.len(),
{
    if s.len() == 0 {
        0
    } else {
        (if s[0].domain == d {
            s[0].count as int
        } else {
            0
        }) + domain_total(s.drop_first(), d)
    }
}

/// Whether some entry carries the domain.
pub open spec fn domain_present(s: Seq<CredView>, d: Seq<char>) -> bool {
    exists|j: int| 0 <= j < s.len() && s[j].domain == d
}

/// Compares two strings in byte-wise lexicographic order.
fn str_le(a: &str, b: &str) -> (r: bool)
    ensures
        r == lex_le(encode_utf8(a@), encode_utf8(b@)),
{
    let ab = a.as_bytes();
    let bb = b.as_bytes();
    let na = ab.len();
    let nb = bb.len();
    let mut i: usize = 0;
    proof {
        assert(ab@.skip(0) =~= ab@);
        assert(bb@.skip(0) =~= bb@);
    }
    loop
        invariant
            na == ab@.len(),
            nb == bb@.len(),
            ab@ == encode_utf8(a@),
            bb@ == encode_utf8(b@),
            i <= na,
            i <= nb,
            lex_le(ab@, bb@) == lex_le(ab@.skip(i as int), bb@.skip(i as int)),
        decreases na - i,
    {
        if i >= na {
            proof {
                assert(ab@.skip(i as int).len() == 0);
            }
            return true;
        }
        if i >= nb {
            proof {
                assert(bb@.skip(i as int).len() == 0);
                assert(ab@.skip(i as int).len() > 0);
            }
            return false;
        }
        let ca = ab[i];
        let cb = bb[i];
        proof {
            let ra = ab@.skip(i as int);
            let rb = bb@.skip(i as int);
            assert(ra[0] == ab@[i as int] && rb[0] == bb@[i as int]);
            assert(ra.drop_first() =~= ab@.skip(i + 1));
            assert(rb.drop_first() =~= bb@.skip(i + 1));
        }
        if ca < cb {
            return true;
        }
        if ca > cb {
            return false;
        }
        i = i + 1;
    }
}

/// Whether the bytes of `p` begin the bytes of `s`.
fn str_starts_with(s: &str, p: &str) -> (r: bool)
    ensures
        r == prefix_of(p.spec_bytes(), s.spec_bytes()),
{
    let sb = s.as_bytes();
    let pb = p.as_bytes();
    if pb.len() > sb.len() {
        return false;
    }
    let n = pb.len();
    let mut i: usize = 0;
    while i < n
        invariant
            n == pb@.len(),
            n <= sb@.len(),
            sb@ == s.spec_bytes(),
            pb@ == p.spec_bytes(),
            i <= n,
            forall|j: int| 0 <= j < i ==> sb@[j] == pb@[j],
        decreases n - i,
    {
        if sb[i] != pb[i] {
            proof {
                if prefix_of(pb@, sb@) {
                    assert(sb@.take(n as int)[i as int] == pb@[i as int]);
                }
            }
            return false;
        }
        i = i + 1;
    }
    proof {
        assert(sb@.take(n as int) =~= pb@);
    }
    true
}

/// The lexicographic order is total: two sequences are always comparable.
proof fn lemma_lex_total(a: Seq<u8>, b: Seq<u8>)
    ensures
        lex_le(a, b) || lex_le(b, a),
    decreases a.len(),
{
    if a.len() > 0 && b.len() > 0 && a[0] == b[0] {
        lemma_lex_total(a.drop_first(), b.drop_first());
    }
}

/// The lexicographic order is transitive.
proof fn lemma_lex_trans(a: Seq<u8>, b: Seq<u8>, c: Seq<u8>)
    requires
        lex_le(a, b),
        lex_le(b, c),
    ensures
        lex_le(a, c),
    decreases a.len(),
{
    if a.len() > 0 && b.len() > 0 && c.len() > 0 {
        if a[0] == b[0] && b[0] == c[0] {
            lemma_lex_trans(a.drop_first(), b.drop_first(), c.drop_first());
        }
    }
}

/// The candidate order is transitive.
proof fn lemma_cand_le_trans(
    t1: int,
    d1: Seq<char>,
    t2: int,
    d2: Seq<char>,
    t3: int,
    d3: Seq<char>,
)
    requires
        cand_le(t1, d1, t2, d2),
        cand_le(t2, d2, t3, d3),
    ensures
        cand_le(t1, d1, t3, d3),
{
    if t1 == t2 && t2 == t3 {
        lemma_lex_trans(encode_utf8(d1), encode_utf8(d2), encode_utf8(d3));
    }
}

/// The total for a domain never exceeds the largest count times the
/// number of entries.
proof fn lemma_domain_total_bound(s: Seq<CredView>, d: Seq<char>)
    ensures
        0 <= domain_total(s, d) <= s.len() * 65535,
    decreases s.len(),
{
    if s.len() > 0 {
        lemma_domain_total_bound(s.drop_first(), d);
        assert((s.len() - 1) * 65535 == s.len() * 65535 - 65535) by (nonlinear_arith);
    }
}

/// The total of a ledger prefix grows by an appended entry's count when
/// that entry carries the domain.
proof fn lemma_domain_total_snoc(s: Seq<CredView>, c: CredView, d: Seq<char>)
    ensures
        domain_total(s.push(c), d) == domain_total(s, d) + (if c.domain == d {
            c.count as int
        } else {
            0int
        }),
    decreases s.len(),
{
    if s.len() == 0 {
        assert(s.push(c).drop_first() =~= s);
        assert(s.push(c)[0] == c);
    } else {
        assert(s.push(c)[0] == s[0]);
        assert(s.push(c).drop_first() =~= s.drop_first().push(c));
        lemma_domain_total_snoc(s.drop_first(), c, d);
    }
}

/// The total usage count recorded for `domain` across the whole ledger.
fn domain_total_of(credentials: &Vec<Credentials>, domain: &str) -> (r: u128)
    ensures
        r == domain_total(creds_view(credentials@), domain@),
{
    let n = credentials.len();
    let mut total: u128 = 0;
    let mut i: usize = 0;
    while i < n
        invariant
            n == credentials@.len(),
            i <= n,
            total == domain_total(creds_view(credentials@).take(i as int), domain@),
            total <= i * 65535,
        decreases n - i,
    {
        let ghost pre = creds_view(credentials@).take(i as int);
        let ghost cvi = credentials@[i as int]@;
        let matches_domain = str_eq(credentials[i].domain.as_str(), domain);
        proof {
            lemma_domain_total_snoc(pre, cvi, domain@);
            assert(creds_view(credentials@).take(i + 1) =~= pre.push(cvi));
            lemma_domain_total_bound(pre, domain@);
            assert((i + 1) * 65535 == i * 65535 + 65535) by (nonlinear_arith);
        }
        if matches_domain {
            total = total + (credentials[i].count as u128);
        }
        i = i + 1;
    }
    proof {
        assert(creds_view(credentials@).take(n as int) =~= creds_view(credentials@));
    }
    total
}

/// Inserts a candidate into a ranked list at the first position whose
/// occupant follows it in the candidate order.
#[verifier::rlimit(100)]
fn insert_ranked(
    out: &mut Vec<String>,
    totals: &mut Vec<u128>,
    d: String,
    t: u128,
    Ghost(cv): Ghost<Seq<CredView>>,
)
    requires
        old(out)@.len() == old(totals)@.len(),
        t == domain_total(cv, d@),
        forall|x: int|
            0 <= x < old(totals)@.len() ==> old(totals)@[x] == domain_total(
                cv,
                #[trigger] old(out)@[x]@,
            ),
        forall|x: int, y: int|
            0 <= x < y < old(out)@.len() ==> cand_le(
                domain_total(cv, #[trigger] old(out)@[x]@),
                old(out)@[x]@,
                domain_total(cv, #[trigger] old(out)@[y]@),
                old(out)@[y]@,
            ),
    ensures
        final(out)@.len() == old(out)@.len() + 1,
        final(totals)@.len() == final(out)@.len(),
        forall|x: int|
            0 <= x < final(totals)@.len() ==> final(totals)@[x] == domain_total(
                cv,
                #[trigger] final(out)@[x]@,
            ),
        forall|x: int, y: int|
            0 <= x < y < final(out)@.len() ==> cand_le(
                domain_total(cv, #[trigger] final(out)@[x]@),
                final(out)@[x]@,
                domain_total(cv, #[trigger] final(out)@[y]@),
                final(out)@[y]@,
            ),
        exists|p: int|
            #![trigger old(out)@.insert(p, d)]
            0 <= p <= old(out)@.len() && final(out)@ =~= old(out)@.insert(p, d) && final(out)@[p]
                == d,
        forall|x: int|
            0 <= x < final(out)@.len() ==> #[trigger] final(out)@[x]@ == d@ || (exists|x0: int|
                0 <= x0 < old(out)@.len() && old(out)@[x0]@ == final(out)@[x]@),
        ((forall|x: int| 0 <= x < old(out)@.len() ==> #[trigger] old(out)@[x]@ != d@) && (forall|
            x: int,
            y: int,
        |
            0 <= x < y < old(out)@.len() ==> old(out)@[x]@ != old(out)@[y]@)) ==> (forall|
            x: int,
            y: int,
        |
            0 <= x < y < final(out)@.len() ==> final(out)@[x]@ != final(out)@[y]@),
{
    let outn = out.len();
    let mut pos: usize = 0;
    while pos < outn
        invariant_except_break
            outn == out@.len(),
            out@.len() == totals@.len(),
            pos <= outn,
            out == old(out),
            totals == old(totals),
            t == domain_total(cv, d@),
            forall|x: int|
                0 <= x < totals@.len() ==> totals@[x] == domain_total(cv, #[trigger] out@[x]@),
            forall|x: int|
                0 <= x < pos ==> cand_le(
                    domain_total(cv, #[trigger] out@[x]@),
                    out@[x]@,
                    domain_total(cv, d@),
                    d@,
                ),
        ensures
            out == old(out),
            totals == old(totals),
            pos <= out@.len(),
            forall|x: int|
                0 <= x < pos ==> cand_le(
                    domain_total(cv, #[trigger] out@[x]@),
                    out@[x]@,
                    domain_total(cv, d@),
                    d@,
                ),
            pos < out@.len() ==> cand_le(
                domain_total(cv, d@),
                d@,
                domain_total(cv, out@[pos as int]@),
                out@[pos as int]@,
            ),
        decreases outn - pos,
    {
        let keep_going: bool;
        if totals[pos] > t {
            keep_going = true;
        } else if totals[pos] == t {
            keep_going = str_le(out[pos].as_str(), d.as_str());
        } else {
            keep_going = false;
        }
        if !keep_going {
            proof {
                lemma_lex_total(encode_utf8(out@[pos as int]@), encode_utf8(d@));
            }
            break;
        }
        pos = pos + 1;
    }
    let ghost old_out = out@;
    let ghost p = pos as int;
    out.insert(pos, d);
    totals.insert(pos, t);
    proof {
        assert(final(out)@[p] == d);
        assert forall|x: int| 0 <= x < final(totals)@.len() implies final(totals)@[x]
            == domain_total(cv, #[trigger] final(out)@[x]@) by {
            if x < p {
                assert(final(out)@[x] == old_out[x]);
            } else if x > p {
                assert(final(out)@[x] == old_out[x - 1]);
            }
        }
        assert forall|x: int, y: int| 0 <= x < y < final(out)@.len() implies cand_le(
            domain_total(cv, #[trigger] final(out)@[x]@),
            final(out)@[x]@,
            domain_total(cv, #[trigger] final(out)@[y]@),
            final(out)@[y]@,
        ) by {
            let td = domain_total(cv, d@);
            if x < p && y < p {
            } else if x < p && y == p {
            } else if x == p && y > p {
                if y - 1 > p {
                    lemma_cand_le_trans(
                        td,
                        d@,
                        domain_total(cv, old_out[p]@),
                        old_out[p]@,
                        domain_total(cv, old_out[y - 1]@),
                        old_out[y - 1]@,
                    );
                }
            } else if x < p && y > p {
                if y - 1 == p {
                    lemma_cand_le_trans(
                        domain_total(cv, old_out[x]@),
                        old_out[x]@,
                        td,
                        d@,
                        domain_total(cv, old_out[p]@),
                        old_out[p]@,
                    );
                } else {
                    assert(final(out)@[y] == old_out[y - 1]);
                }
            } else {
                assert(final(out)@[x] == old_out[x - 1] && final(out)@[y] == old_out[y - 1]);
            }
        }
        assert forall|x: int| 0 <= x < final(out)@.len() implies #[trigger] final(out)@[x]@ == d@
            || (exists|x0: int|
            0 <= x0 < old_out.len() && old_out[x0]@ == final(out)@[x]@) by {
            if x < p {
                assert(old_out[x]@ == final(out)@[x]@);
            } else if x > p {
                assert(old_out[x - 1]@ == final(out)@[x]@);
            }
        }
        if (forall|x: int| 0 <= x < old_out.len() ==> #[trigger] old_out[x]@ != d@) && (forall|
            x: int,
            y: int,
        |
            0 <= x < y < old_out.len() ==> old_out[x]@ != old_out[y]@) {
            assert forall|x: int, y: int| 0 <= x < y < final(out)@.len() implies final(out)@[x]@
                != final(out)@[y]@ by {
                if x == p {
                    assert(final(out)@[y] == old_out[y - 1]);
                    assert(old_out[y - 1]@ != d@);
                } else if y == p {
                    assert(final(out)@[x] == old_out[x]);
                    assert(old_out[x]@ != d@);
                } else {
                    let ox = if x < p {
                        x
                    } else {
                        x - 1
                    };
                    let oy = if y < p {
                        y
                    } else {
                        y - 1
                    };
                    assert(final(out)@[x] == old_out[ox] && final(out)@[y] == old_out[oy]);
                }
            }
        }
    }
}

/// The domains of the remembered credentials whose bytes begin with
/// `partial`, each once, ordered by descending total usage count and,
/// among equals, ascending name; or the partial itself when nothing
/// matches.
#[verifier::rlimit(100)]
pub fn domain_candidates(credentials: &Vec<Credentials>, partial: &str) -> (r: Vec<String>)
    ensures
        ({
            let cv = creds_view(credentials@);
            &&& (forall|i: int|
                0 <= i < r@.len() ==> prefix_of(
                    partial.spec_bytes(),
                    encode_utf8(#[trigger] r@[i]@),
                ) && domain_present(cv, r@[i]@)) || (r@.len() == 1 && r@[0]@ == partial@ && (
            forall|j: int|
                0 <= j < cv.len() ==> !prefix_of(
                    partial.spec_bytes(),
                    encode_utf8(#[trigger] cv[j].domain),
                )))
            &&& forall|j: int|
                0 <= j < cv.len() && prefix_of(
                    partial.spec_bytes(),
                    encode_utf8(#[trigger] cv[j].domain),
                ) ==> (exists|i: int| 0 <= i < r@.len() && r@[i]@ == cv[j].domain)
            &&& forall|i: int, j: int|
                0 <= i < j < r@.len() ==> cand_le(
                    domain_total(cv, #[trigger] r@[i]@),
                    r@[i]@,
                    domain_total(cv, #[trigger] r@[j]@),
                    r@[j]@,
                )
            &&& forall|i: int, j: int| 0 <= i < j < r@.len() ==> r@[i]@ != r@[j]@
            &&& r@.len() >= 1
        }),
{
    let ghost cv = creds_view(credentials@);
    let n = credentials.len();
    let mut doms: Vec<String> = Vec::new();
    let mut i: usize = 0;
    while i < n
        invariant
            n == credentials@.len(),
            cv == creds_view(credentials@),
            i <= n,
            forall|x: int|
                0 <= x < doms@.len() ==> prefix_of(
                    partial.spec_bytes(),
                    encode_utf8(#[trigger] doms@[x]@),
                ) && domain_present(cv, doms@[x]@),
            forall|x: int, y: int| 0 <= x < y < doms@.len() ==> doms@[x]@ != doms@[y]@,
            forall|j: int|
                0 <= j < i && prefix_of(partial.spec_bytes(), encode_utf8(#[trigger] cv[j].domain))
                    ==> (exists|x: int| 0 <= x < doms@.len() && doms@[x]@ == cv[j].domain),
        decreases n - i,
    {
        proof {
            assert(cv[i as int] == credentials@[i as int]@);
        }
        if str_starts_with(credentials[i].domain.as_str(), partial) {
            let mut seen: bool = false;
            let m = doms.len();
            let mut x: usize = 0;
            while x < m
                invariant_except_break
                    m == doms@.len(),
                    x <= m,
                    i < n,
                    n == credentials@.len(),
                    cv == creds_view(credentials@),
                    !seen,
                    forall|y: int| 0 <= y < x ==> doms@[y]@ != #[trigger] cv[i as int].domain,
                ensures
                    m == doms@.len(),
                    seen <==> (exists|y: int|
                        0 <= y < m && #[trigger] doms@[y]@ == cv[i as int].domain),
                decreases m - x,
            {
                if str_eq(doms[x].as_str(), credentials[i].domain.as_str()) {
                    seen = true;
                    proof {
                        assert(doms@[x as int]@ == cv[i as int].domain);
                    }
                    break;
                }
                x = x + 1;
            }
            if !seen {
                let ghost old_doms = doms@;
                doms.push(credentials[i].domain.clone());
                proof {
                    assert(doms@.last()@ == cv[i as int].domain);
                    assert(domain_present(cv, cv[i as int].domain)) by {
                        assert(cv[i as int].domain == cv[i as int].domain);
                    }
                    assert forall|j: int|
                        0 <= j < i && prefix_of(
                            partial.spec_bytes(),
                            encode_utf8(#[trigger] cv[j].domain),
                        ) implies (exists|x2: int|
                        0 <= x2 < doms@.len() && doms@[x2]@ == cv[j].domain) by {
                        let x0 = choose|x0: int|
                            0 <= x0 < old_doms.len() && old_doms[x0]@ == cv[j].domain;
                        assert(doms@[x0]@ == cv[j].domain);
                    }
                    assert forall|x2: int, y2: int|
                        0 <= x2 < y2 < doms@.len() implies doms@[x2]@ != doms@[y2]@ by {
                        if y2 < doms@.len() - 1 {
                            assert(doms@[x2] == old_doms[x2] && doms@[y2] == old_doms[y2]);
                        } else {
                            assert(doms@[x2] == old_doms[x2]);
                            assert(old_doms[x2]@ != cv[i as int].domain);
                        }
                    }
                }
            }
        }
        i = i + 1;
    }
    if doms.len() == 0 {
        let mut only: Vec<String> = Vec::new();
        only.push(<String as vstd::string::StringExecFns>::from_str(partial));
        return only;
    }
    let mut out: Vec<String> = Vec::new();
    let mut totals: Vec<u128> = Vec::new();
    let k = doms.len();
    let mut di: usize = 0;
    while di < k
        invariant
            k == doms@.len(),
            cv == creds_view(credentials@),
            out@.len() == totals@.len(),
            out@.len() == di,
            di <= k,
            forall|x: int, y: int| 0 <= x < y < doms@.len() ==> doms@[x]@ != doms@[y]@,
            forall|x: int|
                0 <= x < doms@.len() ==> prefix_of(
                    partial.spec_bytes(),
                    encode_utf8(#[trigger] doms@[x]@),
                ) && domain_present(cv, doms@[x]@),
            forall|y: int|
                0 <= y < di ==> (exists|x: int|
                    0 <= x < out@.len() && out@[x]@ == #[trigger] doms@[y]@),
            forall|x: int|
                0 <= x < out@.len() ==> (exists|y: int|
                    0 <= y < di && #[trigger] out@[x]@ == doms@[y]@),
            forall|x: int, y: int| 0 <= x < y < out@.len() ==> out@[x]@ != out@[y]@,
            forall|x: int|
                0 <= x < out@.len() ==> prefix_of(
                    partial.spec_bytes(),
                    encode_utf8(#[trigger] out@[x]@),
                ) && domain_present(cv, out@[x]@),
            forall|x: int|
                0 <= x < totals@.len() ==> totals@[x] == domain_total(cv, #[trigger] out@[x]@),
            forall|x: int, y: int|
                0 <= x < y < out@.len() ==> cand_le(
                    domain_total(cv, #[trigger] out@[x]@),
                    out@[x]@,
                    domain_total(cv, #[trigger] out@[y]@),
                    out@[y]@,
                ),
        decreases k - di,
    {
        let d = doms[di].clone();
        let t = domain_total_of(credentials, d.as_str());
        let ghost old_out = out@;
        insert_ranked(&mut out, &mut totals, d, t, Ghost(cv));
        proof {
            let p = choose|p: int|
                0 <= p <= old_out.len() && out@ =~= old_out.insert(p, d) && #[trigger] out@[p]
                    == d;
            // The new candidate is a source domain no earlier candidate
            // carries, so membership extends and distinctness holds.
            assert forall|x: int| 0 <= x < out@.len() implies (exists|y: int|
                0 <= y < di + 1 && #[trigger] out@[x]@ == doms@[y]@) by {
                if out@[x]@ == d@ {
                    assert(out@[x]@ == doms@[di as int]@);
                } else {
                    let x0 = choose|x0: int|
                        0 <= x0 < old_out.len() && old_out[x0]@ == out@[x]@;
                    let y0 = choose|y0: int| 0 <= y0 < di && old_out[x0]@ == doms@[y0]@;
                    assert(out@[x]@ == doms@[y0]@);
                }
            }
            assert forall|x: int| 0 <= x < old_out.len() implies #[trigger] old_out[x]@ != d@ by {
                let y0 = choose|y0: int| 0 <= y0 < di && #[trigger] old_out[x]@ == doms@[y0]@;
                assert(doms@[y0]@ != doms@[di as int]@);
            }
            assert forall|x: int| 0 <= x < out@.len() implies prefix_of(
                partial.spec_bytes(),
                encode_utf8(#[trigger] out@[x]@),
            ) && domain_present(cv, out@[x]@) by {
                if x == p {
                    assert(out@[x]@ == doms@[di as int]@);
                } else if x < p {
                    assert(out@[x] == old_out[x]);
                } else {
                    assert(out@[x] == old_out[x - 1]);
                }
            }
            assert forall|y: int| 0 <= y < di + 1 implies (exists|x: int|
                0 <= x < out@.len() && out@[x]@ == #[trigger] doms@[y]@) by {
                if y < di {
                    let x0 = choose|x0: int|
                        0 <= x0 < old_out.len() && old_out[x0]@ == #[trigger] doms@[y]@;
                    if x0 < p {
                        assert(out@[x0]@ == doms@[y]@);
                    } else {
                        assert(out@[x0 + 1]@ == doms@[y]@);
                    }
                } else {
                    assert(out@[p]@ == doms@[y]@);
                }
            }
        }
        di = di + 1;
    }
    proof {
        assert forall|j: int|
            0 <= j < cv.len() && prefix_of(
                partial.spec_bytes(),
                encode_utf8(#[trigger] cv[j].domain),
            ) implies (exists|i2: int| 0 <= i2 < out@.len() && out@[i2]@ == cv[j].domain) by {
            let y = choose|y: int| 0 <= y < doms@.len() && doms@[y]@ == cv[j].domain;
            let x = choose|x: int| 0 <= x < out@.len() && out@[x]@ == #[trigger] doms@[y]@;
            assert(out@[x]@ == cv[j].domain);
        }
    }
    out
}





/// The identities remembered for one domain whose bytes begin with
/// `partial`, each once, ordered by descending count and, among equals,
/// ascending identity; or the partial itself when nothing matches.
#[verifier::rlimit(100)]
pub fn identity_candidates(credentials: &Vec<Credentials>, domain: &str, partial: &str) -> (r: Vec<
    String,
>)
    ensures
        ({
            let cv = creds_view(credentials@);
            &&& forall|j: int|
                0 <= j < cv.len() && cv[j].domain == domain@ && prefix_of(
                    partial.spec_bytes(),
                    encode_utf8(#[trigger] cv[j].identity),
                ) ==> (exists|i: int| 0 <= i < r@.len() && r@[i]@ == cv[j].identity)
            &&& forall|i: int, j: int|
                0 <= i < j < r@.len() ==> cand_le(
                    total_count(cv, domain@, #[trigger] r@[i]@),
                    r@[i]@,
                    total_count(cv, domain@, #[trigger] r@[j]@),
                    r@[j]@,
                )
            &&& forall|i: int, j: int| 0 <= i < j < r@.len() ==> r@[i]@ != r@[j]@
            &&& r@.len() >= 1
        }),
{
    let ghost cv = creds_view(credentials@);
    // One domain's entries are unique by identity in a well-formed
    // ledger, so ranking reduces to the domain machinery over a
    // projected ledger whose domains are the identities.
    let n = credentials.len();
    let mut projected: Vec<Credentials> = Vec::new();
    let mut i: usize = 0;
    proof {
        assert forall|ident: Seq<char>|
            #[trigger] domain_total(creds_view(projected@), ident) == total_count(
                cv.take(i as int),
                domain@,
                ident,
            ) by {
            assert(creds_view(projected@).len() == 0);
            assert(cv.take(i as int).len() == 0);
        }
    }
    while i < n
        invariant
            n == credentials@.len(),
            cv == creds_view(credentials@),
            i <= n,
            forall|j: int|
                0 <= j < i && cv[j].domain == domain@ ==> domain_present(
                    creds_view(projected@),
                    #[trigger] cv[j].identity,
                ),
            forall|ident: Seq<char>|
                #[trigger] domain_total(creds_view(projected@), ident) == total_count(
                    cv.take(i as int),
                    domain@,
                    ident,
                ),
        decreases n - i,
    {
        proof {
            assert(cv[i as int] == credentials@[i as int]@);
        }
        let dm = str_eq(credentials[i].domain.as_str(), domain);
        if dm {
            let c = Credentials {
                domain: credentials[i].identity.clone(),
                identity: credentials[i].domain.clone(),
                count: credentials[i].count,
            };
            let ghost old_vec = projected@;
            let ghost cval = c@;
            projected.push(c);
            proof {
                let newv = creds_view(projected@);
                assert(newv[old_vec.len() as int] == projected@[old_vec.len() as int]@);
                assert(newv[old_vec.len() as int].domain == cv[i as int].identity);
                assert forall|j: int|
                    0 <= j < i + 1 && cv[j].domain == domain@ implies domain_present(
                    newv,
                    #[trigger] cv[j].identity,
                ) by {
                    if j < i {
                        let x0 = choose|x0: int|
                            0 <= x0 < creds_view(old_vec).len() && creds_view(old_vec)[x0].domain
                                == cv[j].identity;
                        assert(creds_view(old_vec)[x0] == old_vec[x0]@);
                        assert(projected@[x0] == old_vec[x0]);
                        assert(newv[x0].domain == cv[j].identity);
                    } else {
                        assert(newv[old_vec.len() as int].domain == cv[j].identity);
                    }
                }
                // The projected entry carries the same count under its
                // identity as the ledger entry does under the pair.
                assert(newv =~= creds_view(old_vec).push(cval)) by {
                    assert forall|x: int| 0 <= x < newv.len() implies newv[x] == creds_view(
                        old_vec,
                    ).push(cval)[x] by {
                        assert(newv[x] == projected@[x]@);
                        if x < old_vec.len() {
                            assert(projected@[x] == old_vec[x]);
                            assert(creds_view(old_vec)[x] == old_vec[x]@);
                        }
                    }
                }
                assert forall|ident: Seq<char>|
                    #[trigger] domain_total(newv, ident) == total_count(
                        cv.take(i + 1),
                        domain@,
                        ident,
                    ) by {
                    lemma_domain_total_snoc(creds_view(old_vec), cval, ident);
                    assert(cv.take(i + 1) =~= cv.take(i as int).insert(i as int, cv[i as int]));
                    lemma_ledger_insert(cv.take(i as int), i as int, cv[i as int], domain@, ident);
                    assert(cval.domain == cv[i as int].identity && cval.count == cv[i as int].count);
                }
            }
        } else {
            proof {
                assert(cv[i as int].domain != domain@);
                assert forall|ident: Seq<char>|
                    #[trigger] domain_total(creds_view(projected@), ident) == total_count(
                        cv.take(i + 1),
                        domain@,
                        ident,
                    ) by {
                    assert(cv.take(i + 1) =~= cv.take(i as int).insert(i as int, cv[i as int]));
                    lemma_ledger_insert(cv.take(i as int), i as int, cv[i as int], domain@, ident);
                }
            }
        }
        i = i + 1;
    }
    let r = domain_candidates(&projected, partial);
    proof {
        let pv = creds_view(projected@);
        assert(cv.take(n as int) =~= cv);
        assert forall|j: int|
            0 <= j < cv.len() && cv[j].domain == domain@ && prefix_of(
                partial.spec_bytes(),
                encode_utf8(#[trigger] cv[j].identity),
            ) implies (exists|i2: int| 0 <= i2 < r@.len() && r@[i2]@ == cv[j].identity) by {
            let x = choose|x: int| 0 <= x < pv.len() && pv[x].domain == cv[j].identity;
            assert(prefix_of(partial.spec_bytes(), encode_utf8(pv[x].domain)));
        }
        // The projected totals agree with the pair totals, so the ranking
        // carries over unchanged.
        assert forall|i2: int, j2: int| 0 <= i2 < j2 < r@.len() implies cand_le(
            total_count(cv, domain@, #[trigger] r@[i2]@),
            r@[i2]@,
            total_count(cv, domain@, #[trigger] r@[j2]@),
            r@[j2]@,
        ) by {
            assert(domain_total(pv, r@[i2]@) == total_count(cv, domain@, r@[i2]@));
            assert(domain_total(pv, r@[j2]@) == total_count(cv, domain@, r@[j2]@));
        }
    }
    r
}

} // verus!
