//! Cosmetic canonicalization of encoded key strings: fixed-size groups,
//! a capitalized first letter per group, and a dash between groups.

use vstd::prelude::*;
use vstd::string::StringExecFns;

use crate::base32::{spec_encode, spec_crockford, encode, to_crockford, vec_zeroed,
    lemma_encode_in_range};
use crate::strutil::{ascii_chars_of, str_chars, string_push, substr_ascii};

verus! {

/// Whether a character counts as lower case; fixed by the character alone.
pub uninterp spec fn is_lowercase_of(c: char) -> bool;

/// The upper-case mapping of a character; fixed by the character alone and
/// never empty.
pub uninterp spec fn uppercase_of(c: char) -> Seq<char>;

/// Relies on `char::is_lowercase`: a property of the character alone.
#[verifier::external_body]
fn char_is_lowercase(c: char) -> (r: bool)
    ensures
        r == is_lowercase_of(c),
{
    c.is_lowercase()
}

/// Relies on `char::to_uppercase`: the upper-case mapping of the character
/// alone; it always yields at least one character.
#[verifier::external_body]
fn char_to_uppercase(c: char) -> (r: Vec<char>)
    ensures
        r@ == uppercase_of(c),
        r@.len() >= 1,
{
    c.to_uppercase().collect()
}

/// The string with its first lower-case character converted to upper case
/// and everything else untouched.
pub open spec fn spec_upcase_first(s: Seq<char>) -> Seq<char>
    decreases s.len(),
{
    if s.len() == 0 {
        seq![]
    } else if is_lowercase_of(s[0]) {
        uppercase_of(s[0]) + s.drop_first()
    } else {
        seq![s[0]] + spec_upcase_first(s.drop_first())
    }
}

proof fn lemma_upcase_skip(s: Seq<char>, i: int)
    requires
        0 <= i <= s.len(),
        forall|j: int| 0 <= j < i ==> !is_lowercase_of(s[j]),
    ensures
        spec_upcase_first(s) == s.take(i) + spec_upcase_first(s.skip(i)),
    decreases i,
{
    if i == 0 {
        assert(s.take(0) =~= Seq::<char>::empty());
        assert(s.skip(0) =~= s);
        assert(s.take(0) + spec_upcase_first(s) =~= spec_upcase_first(s));
    } else {
        assert(s.len() > 0);
        assert(!is_lowercase_of(s[0]));
        lemma_upcase_skip(s.drop_first(), i - 1);
        assert(s.drop_first().take(i - 1) =~= s.take(i).drop_first());
        assert(s.drop_first().skip(i - 1) =~= s.skip(i));
        assert(spec_upcase_first(s) == seq![s[0]] + spec_upcase_first(s.drop_first()));
        assert(seq![s[0]] + (s.drop_first().take(i - 1) + spec_upcase_first(s.skip(i))) =~= s.take(
            i,
        ) + spec_upcase_first(s.skip(i)));
    }
}

/// Capitalizes the first lower-case character of the string.
pub fn upcase_first(string: &str) -> (r: String)
    ensures
        r@ == spec_upcase_first(string@),
{
    let cs = str_chars(string);
    let ghost s = string@;
    let n = cs.len();
    let mut result = String::new();
    let mut did_convert: bool = false;
    let mut i: usize = 0;
    while i < n
        invariant
            n == s.len(),
            cs@ == s,
            i <= n,
            !did_convert ==> result@ == s.take(i as int) && (forall|j: int|
                0 <= j < i ==> !is_lowercase_of(s[j])),
            did_convert ==> spec_upcase_first(s) == result@ + s.skip(i as int),
        decreases n - i,
    {
        let c = cs[i];
        if !did_convert && char_is_lowercase(c) {
            did_convert = true;
            let ups = char_to_uppercase(c);
            proof {
                lemma_upcase_skip(s, i as int);
                assert(spec_upcase_first(s.skip(i as int)) == uppercase_of(s[i as int]) + s.skip(
                    i as int,
                ).drop_first());
                assert(s.skip(i as int).drop_first() =~= s.skip(i + 1));
            }
            let m = ups.len();
            let mut k: usize = 0;
            while k < m
                invariant
                    m == ups@.len(),
                    k <= m,
                    result@ == s.take(i as int) + ups@.take(k as int),
                decreases m - k,
            {
                string_push(&mut result, ups[k]);
                proof {
                    assert(ups@.take(k + 1) =~= ups@.take(k as int).push(ups@[k as int]));
                    assert(s.take(i as int) + ups@.take(k as int).push(ups@[k as int]) =~= (s.take(
                        i as int,
                    ) + ups@.take(k as int)).push(ups@[k as int]));
                }
                k = k + 1;
            }
            proof {
                assert(ups@.take(m as int) =~= ups@);
                assert(spec_upcase_first(s) =~= (s.take(i as int) + ups@) + s.skip(i + 1));
            }
        } else {
            string_push(&mut result, c);
            proof {
                if did_convert {
                    assert(s.skip(i as int) =~= seq![s[i as int]] + s.skip(i + 1));
                    assert(result@.push(s[i as int]) + s.skip(i + 1) =~= result@ + s.skip(
                        i as int,
                    ));
                } else {
                    assert(s.take(i + 1) =~= s.take(i as int).push(s[i as int]));
                }
            }
        }
        i = i + 1;
    }
    proof {
        if !did_convert {
            assert(s.take(n as int) =~= s);
            lemma_upcase_skip(s, n as int);
            assert(s.skip(n as int) =~= Seq::<char>::empty());
            assert(spec_upcase_first(s) == s + spec_upcase_first(Seq::<char>::empty()));
            assert(s + spec_upcase_first(Seq::<char>::empty()) =~= s);
        } else {
            assert(s.skip(n as int) =~= Seq::<char>::empty());
            assert(result@ + s.skip(n as int) =~= result@);
        }
    }
    result
}

/// The successive groups of `g` characters of a string, the last group
/// possibly shorter.  An empty string has no groups.
pub open spec fn spec_groups(s: Seq<char>, g: nat) -> Seq<Seq<char>>
    decreases s.len(),
    when g > 0
{
    if s.len() == 0 {
        seq![]
    } else if s.len() <= g {
        seq![s]
    } else {
        seq![s.take(g as int)] + spec_groups(s.skip(g as int), g)
    }
}

/// A strictly forward iterator over the fixed-size groups of a string.
pub struct SplitGroups<'a> {
    string: &'a str,
    start: usize,
    group_size: usize,
    finished: bool,
}

impl<'a> SplitGroups<'a> {
    /// The groups this iterator has yet to yield.
    pub closed spec fn remaining(&self) -> Seq<Seq<char>> {
        if self.finished {
            seq![]
        } else {
            spec_groups(self.string@.skip(self.start as int), self.group_size as nat)
        }
    }

    pub closed spec fn wf(&self) -> bool {
        self.finished || (self.group_size > 0 && self.start < self.string@.len()
            && vstd::string::is_ascii(self.string))
    }

    /// Yields the next group, if one is left.
    pub fn next(&mut self) -> (r: Option<&'a str>)
        requires
            old(self).wf(),
        ensures
            final(self).wf(),
            old(self).remaining().len() == 0 ==> r is None && final(self).remaining() == Seq::<
                Seq<char>,
            >::empty(),
            old(self).remaining().len() > 0 ==> (r matches Some(t) && t@ == old(
                self,
            ).remaining()[0] && final(self).remaining() == old(self).remaining().drop_first()),
    {
        if self.finished {
            return None;
        }
        let ghost rem = self.string@.skip(self.start as int);
        proof {
            crate::strutil::lemma_ascii_str_len(self.string);
            assert(rem.len() > 0);
        }
        let len = self.string.as_bytes().len();
        proof {
            assert(len == self.string@.len());
        }
        let end: usize;
        if len - self.start <= self.group_size {
            end = len;
            self.finished = true;
        } else {
            end = self.start + self.group_size;
        }
        let item = substr_ascii(self.string, self.start, end);
        proof {
            let g = self.group_size as nat;
            if rem.len() <= g {
                assert(end == len);
                assert(item@ =~= rem);
                assert(old(self).remaining() == seq![rem]);
            } else {
                assert(item@ =~= rem.take(g as int));
                assert(self.string@.skip(end as int) =~= rem.skip(g as int));
            }
        }
        self.start = end;
        Some(item)
    }
}

/// The group iterator for a string: groups of `group_size` characters, or
/// an exhausted iterator when the string is empty or the size is zero.
pub fn split_groups<'a>(string: &'a str, group_size: usize) -> (r: SplitGroups<'a>)
    requires
        vstd::string::is_ascii(string),
    ensures
        r.wf(),
        string@.len() > 0 && group_size > 0 ==> r.remaining() == spec_groups(
            string@,
            group_size as nat,
        ),
        string@.len() == 0 || group_size == 0 ==> r.remaining() == Seq::<Seq<char>>::empty(),
{
    proof {
        crate::strutil::lemma_ascii_str_len(string);
    }
    if !string.is_empty() && group_size > 0 {
        let r = SplitGroups { string, start: 0, group_size, finished: false };
        proof {
            assert(string@.skip(0) =~= string@);
        }
        r
    } else {
        SplitGroups { string: "", start: 0, group_size: 0, finished: true }
    }
}

/// The dash-joined concatenation of the groups, each with its first letter
/// capitalized.
pub open spec fn spec_join_upcased(gs: Seq<Seq<char>>) -> Seq<char>
    decreases gs.len(),
{
    if gs.len() == 0 {
        seq![]
    } else if gs.len() == 1 {
        spec_upcase_first(gs[0])
    } else {
        spec_upcase_first(gs[0]) + seq!['-'] + spec_join_upcased(gs.drop_first())
    }
}

/// The canonical display form of a string: groups of `g` characters, each
/// capitalized, joined by dashes.
pub open spec fn spec_canonical(s: Seq<char>, g: nat) -> Seq<char> {
    spec_join_upcased(spec_groups(s, g))
}

fn join_upcased_groups(input: &str, group_size: usize) -> (r: String)
    requires
        vstd::string::is_ascii(input),
        group_size > 0,
    ensures
        r@ == spec_canonical(input@, group_size as nat),
{
    let mut it = split_groups(input, group_size);
    let ghost all = it.remaining();
    let mut result = String::new();
    let mut first: bool = true;
    loop
        invariant
            it.wf(),
            first ==> result@ == Seq::<char>::empty() && it.remaining() == all,
            !first ==> spec_join_upcased(all) == result@ + (if it.remaining().len() > 0 {
                seq!['-'] + spec_join_upcased(it.remaining())
            } else {
                Seq::<char>::empty()
            }),
            !first ==> all.len() > 0,
        ensures
            result@ == spec_join_upcased(all),
        decreases it.remaining().len() + (if first {
            1nat
        } else {
            0nat
        }),
    {
        let ghost rem_before = it.remaining();
        match it.next() {
            None => {
                proof {
                    if first {
                        assert(all.len() == 0);
                    } else {
                        assert(result@ + Seq::<char>::empty() =~= result@);
                    }
                }
                break;
            },
            Some(group) => {
                let up = upcase_first(group);
                if first {
                    result = up;
                    first = false;
                    proof {
                        if rem_before.len() == 1 {
                            assert(spec_join_upcased(all) == spec_upcase_first(all[0]));
                        } else {
                            assert(spec_join_upcased(all) == spec_upcase_first(all[0])
                                + seq!['-'] + spec_join_upcased(all.drop_first()));
                        }
                    }
                } else {
                    string_push(&mut result, '-');
                    result.append(up.as_str());
                    proof {
                        let old_rem = rem_before;
                        if old_rem.len() == 1 {
                            assert(spec_join_upcased(old_rem) == spec_upcase_first(old_rem[0]));
                        } else {
                            assert(spec_join_upcased(old_rem) == spec_upcase_first(old_rem[0])
                                + seq!['-'] + spec_join_upcased(old_rem.drop_first()));
                        }
                        assert(spec_join_upcased(all) =~= result@ + (if it.remaining().len() > 0 {
                            seq!['-'] + spec_join_upcased(it.remaining())
                        } else {
                            Seq::<char>::empty()
                        }));
                    }
                }
            },
        }
    }
    result
}

/// Splits a string into groups of 4, capitalizes each group's first letter
/// and joins the groups with dashes.
pub fn to_canonical(input: &str) -> (r: String)
    requires
        vstd::string::is_ascii(input),
    ensures
        r@ == spec_canonical(input@, 4),
{
    join_upcased_groups(input, 4)
}

/// The full display pipeline for a raw key: pack into 5-bit symbols, map to
/// the display alphabet, and canonicalize in groups of `group_size`.
pub fn format_key(key: &[u8], group_size: usize) -> (r: String)
    requires
        group_size > 0,
        key@.len() % 5 == 0,
        8 * (key@.len() / 5) <= usize::MAX,
    ensures
        r@ == spec_canonical(
            ascii_chars_of(spec_crockford(spec_encode(key@))),
            group_size as nat,
        ),
{
    let n = (key.len() / 5) * 8;
    let mut b32_key = vec_zeroed(n);
    encode(key, &mut b32_key);
    proof {
        lemma_encode_in_range(key@);
    }
    let key_str = to_crockford(b32_key.as_slice());
    join_upcased_groups(key_str.as_str(), group_size)
}

} // verus!
