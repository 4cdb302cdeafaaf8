//! Queries: weighted bags of terms, parsed from `"<id>:<token>*"` lines.

use vstd::prelude::*;

verus! {

broadcast use vstd::seq::group_seq_axioms;

/// The ceiling that per-query term weights are rescaled into.
pub const MAX_TERM_WEIGHT: usize = 32;

/// One query term: a token and its per-query weight.
#[derive(Clone, Debug, PartialEq, Eq)]
pub struct Term {
    pub token: String,
    pub freq: u32,
}

/// A parsed query: its numeric id and its unique, weighted terms in
/// descending token order.
#[derive(Clone, Debug, PartialEq, Eq)]
pub struct Query {
    pub id: usize,
    pub tokens: Vec<Term>,
}

/// Whether `c` has the Unicode whitespace property.
pub uninterp spec fn whitespace(c: char) -> bool;

/// Relies on `char::is_whitespace`: the Unicode whitespace property of a
/// character; a space is whitespace, while ASCII digits, letters and `':'`
/// are not.
#[verifier::external_body]
fn is_ws(c: char) -> (r: bool)
    ensures
        r == whitespace(c),
        c == ' ' ==> r,
        48 <= c as u32 <= 57 ==> !r,
        97 <= c as u32 <= 122 ==> !r,
        65 <= c as u32 <= 90 ==> !r,
        c == ':' ==> !r,
{
    c.is_whitespace()
}

/// `c` is a decimal digit.
pub open spec fn is_digit(c: char) -> bool {
    48 <= c as u32 <= 57
}

/// All characters of `s` are decimal digits.
pub open spec fn all_digits(s: Seq<char>) -> bool {
    forall|i: int| 0 <= i < s.len() ==> is_digit(#[trigger] s[i])
}

/// The decimal value of a digit run.
pub open spec fn digits_val(s: Seq<char>) -> int
    decreases s.len(),
{
    if s.len() == 0 {
        0
    } else {
        digits_val(s.drop_last()) * 10 + (s.last() as u32 - 48)
    }
}

/// Position of the first `':'` in `s`, or `-1` when there is none.
pub open spec fn colon_idx(s: Seq<char>) -> int
    decreases s.len(),
{
    if s.len() == 0 {
        -1
    } else if s[0] == ':' {
        0
    } else {
        let r = colon_idx(s.skip(1));
        if r < 0 {
            -1
        } else {
            r + 1
        }
    }
}

/// The whitespace-separated tokens of `s`, with `cur` the token under
/// construction.
pub open spec fn split_acc(s: Seq<char>, cur: Seq<char>) -> Seq<Seq<char>>
    decreases s.len(),
{
    if s.len() == 0 {
        if cur.len() == 0 {
            Seq::empty()
        } else {
            seq![cur]
        }
    } else if whitespace(s[0]) {
        if cur.len() == 0 {
            split_acc(s.skip(1), cur)
        } else {
            seq![cur] + split_acc(s.skip(1), Seq::empty())
        }
    } else {
        split_acc(s.skip(1), cur.push(s[0]))
    }
}

/// The whitespace-separated tokens of `s`.
pub open spec fn split_ws(s: Seq<char>) -> Seq<Seq<char>> {
    split_acc(s, Seq::empty())
}

/// How many entries of `ts` equal `t`.
pub open spec fn count_eq(ts: Seq<Seq<char>>, t: Seq<char>) -> int
    decreases ts.len(),
{
    if ts.len() == 0 {
        0
    } else {
        (if ts[0] == t {
            1int
        } else {
            0int
        }) + count_eq(ts.skip(1), t)
    }
}

/// Strict lexicographic order on character sequences, by scalar value.
pub open spec fn lex_lt(a: Seq<char>, b: Seq<char>) -> bool
    decreases a.len(),
{
    if b.len() == 0 {
        false
    } else if a.len() == 0 {
        true
    } else if a[0] != b[0] {
        (a[0] as u32) < (b[0] as u32)
    } else {
        lex_lt(a.skip(1), b.skip(1))
    }
}

/// Two distinct sequences are ordered one way or the other.
pub proof fn lemma_lex_total(a: Seq<char>, b: Seq<char>)
    ensures
        a == b || lex_lt(a, b) || lex_lt(b, a),
    decreases a.len(),
{
    if a.len() != 0 && b.len() != 0 && a[0] == b[0] {
        lemma_lex_total(a.skip(1), b.skip(1));
        if a.skip(1) == b.skip(1) {
            assert(a.len() == b.len());
            assert forall|i: int| 0 <= i < a.len() implies a[i] == b[i] by {
                if i > 0 {
                    assert(a.skip(1)[i - 1] == b.skip(1)[i - 1]);
                }
            }
            assert(a =~= b);
        }
    } else if a.len() != 0 && b.len() != 0 && (a[0] as u32) == (b[0] as u32) {
        vstd::utf8::char_u32_cast(a[0], a[0] as u32);
        vstd::utf8::char_u32_cast(b[0], b[0] as u32);
        assert(a[0] == b[0]);
    }
}

pub proof fn lemma_lex_irrefl(a: Seq<char>)
    ensures
        !lex_lt(a, a),
    decreases a.len(),
{
    if a.len() > 0 {
        lemma_lex_irrefl(a.skip(1));
    }
}

pub proof fn lemma_lex_trans(a: Seq<char>, b: Seq<char>, c: Seq<char>)
    requires
        lex_lt(a, b),
        lex_lt(b, c),
    ensures
        lex_lt(a, c),
    decreases a.len() + b.len() + c.len(),
{
    if b.len() != 0 && c.len() != 0 && a.len() != 0 {
        if a[0] == b[0] && b[0] == c[0] {
            lemma_lex_trans(a.skip(1), b.skip(1), c.skip(1));
        }
    }
}

/// A query's tokens are exactly the collapse of a token run: unique, in
/// descending token order, each with the run's number of occurrences as its
/// weight, and nothing besides the run's tokens.
pub open spec fn collapsed(ts: Seq<Seq<char>>, tokens: Seq<Term>) -> bool {
    &&& forall|i: int, j: int|
        0 <= i < j < tokens.len() ==> lex_lt(
            #[trigger] tokens[j].token@,
            #[trigger] tokens[i].token@,
        )
    &&& forall|i: int|
        0 <= i < tokens.len() ==> count_eq(ts, (#[trigger] tokens[i]).token@) == tokens[i].freq
    &&& forall|j: int|
        0 <= j < ts.len() ==> exists|i: int|
            0 <= i < tokens.len() && (#[trigger] ts[j]) == tokens[i].token@
}

/// Compares two strings in the strict lexicographic order `lex_lt`.
pub fn str_lex_lt(a: &str, b: &str) -> (r: bool)
    ensures
        r == lex_lt(a@, b@),
{
    let alen = a.unicode_len();
    let blen = b.unicode_len();
    let mut i: usize = 0;
    proof {
        assert(a@.skip(0) =~= a@);
        assert(b@.skip(0) =~= b@);
    }
    loop
        invariant
            i <= alen,
            i <= blen,
            alen == a@.len(),
            blen == b@.len(),
            lex_lt(a@, b@) == lex_lt(a@.skip(i as int), b@.skip(i as int)),
        decreases alen - i,
    {
        if i >= blen {
            proof {
                assert(b@.skip(i as int).len() == 0);
            }
            return false;
        }
        if i >= alen {
            proof {
                assert(a@.skip(i as int).len() == 0);
                assert(b@.skip(i as int).len() > 0);
            }
            return true;
        }
        let ca = a.get_char(i);
        let cb = b.get_char(i);
        proof {
            assert(a@.skip(i as int)[0] == a@[i as int]);
            assert(b@.skip(i as int)[0] == b@[i as int]);
            assert(a@.skip(i as int).skip(1) =~= a@.skip(i as int + 1));
            assert(b@.skip(i as int).skip(1) =~= b@.skip(i as int + 1));
        }
        if ca != cb {
            return (ca as u32) < (cb as u32);
        }
        i = i + 1;
    }
}

/// Finds the place of `tok` in a descending token list: either the index
/// holding `tok` itself, or the index where it belongs.
fn find_pos(tokens: &Vec<Term>, tok: &str) -> (r: (usize, bool))
    requires
        forall|i: int, j: int|
            0 <= i < j < tokens@.len() ==> lex_lt(
                #[trigger] tokens@[j].token@,
                #[trigger] tokens@[i].token@,
            ),
    ensures
        r.1 ==> r.0 < tokens@.len() && tokens@[r.0 as int].token@ == tok@,
        !r.1 ==> r.0 <= tokens@.len() && (forall|k: int|
            0 <= k < r.0 ==> lex_lt(tok@, (#[trigger] tokens@[k]).token@)) && (r.0
            < tokens@.len() ==> lex_lt(tokens@[r.0 as int].token@, tok@)),
{
    let mut i: usize = 0;
    loop
        invariant
            i <= tokens@.len(),
            forall|k: int| 0 <= k < i ==> lex_lt(tok@, (#[trigger] tokens@[k]).token@),
        decreases tokens@.len() - i,
    {
        if i >= tokens.len() {
            return (i, false);
        }
        let cur = &tokens[i];
        let below = str_lex_lt(cur.token.as_str(), tok);
        let above = str_lex_lt(tok, cur.token.as_str());
        if !below && !above {
            proof {
                lemma_lex_total(tok@, cur.token@);
            }
            return (i, true);
        }
        if below {
            return (i, false);
        }
        i = i + 1;
    }
}

/// Each token occurs at most as often as the run is long.
proof fn lemma_count_le_len(ts: Seq<Seq<char>>, t: Seq<char>)
    ensures
        0 <= count_eq(ts, t) <= ts.len(),
    decreases ts.len(),
{
    if ts.len() > 0 {
        lemma_count_le_len(ts.skip(1), t);
    }
}

proof fn lemma_count_push(ts: Seq<Seq<char>>, t0: Seq<char>)
    ensures
        forall|t: Seq<char>| #[trigger] count_eq(ts.push(t0), t) == count_eq(ts, t) + (if t == t0 {
            1int
        } else {
            0int
        }),
    decreases ts.len(),
{
    if ts.len() == 0 {
        assert forall|t: Seq<char>| #[trigger] count_eq(ts.push(t0), t) == count_eq(ts, t) + (if t
            == t0 {
            1int
        } else {
            0int
        }) by {
            assert(ts.push(t0).skip(1) =~= Seq::<Seq<char>>::empty());
            assert(ts.push(t0)[0] == t0);
            assert(count_eq(Seq::<Seq<char>>::empty(), t) == 0);
            assert(count_eq(ts.push(t0), t) == (if ts.push(t0)[0] == t {
                1int
            } else {
                0int
            }) + count_eq(ts.push(t0).skip(1), t));
        }
    } else {
        lemma_count_push(ts.skip(1), t0);
        assert forall|t: Seq<char>| #[trigger] count_eq(ts.push(t0), t) == count_eq(ts, t) + (if t
            == t0 {
            1int
        } else {
            0int
        }) by {
            assert(ts.push(t0).skip(1) =~= ts.skip(1).push(t0));
            assert(ts.push(t0)[0] == ts[0]);
            assert(count_eq(ts.skip(1).push(t0), t) == count_eq(ts.skip(1), t) + (if t == t0 {
                1int
            } else {
                0int
            }));
        }
    }
}

proof fn lemma_count_pos_exists(ts: Seq<Seq<char>>, t: Seq<char>)
    requires
        count_eq(ts, t) != 0,
    ensures
        exists|j: int| 0 <= j < ts.len() && ts[j] == t,
    decreases ts.len(),
{
    if ts.len() > 0 {
        if ts[0] == t {
        } else {
            lemma_count_pos_exists(ts.skip(1), t);
            let j = choose|j: int| 0 <= j < ts.skip(1).len() && ts.skip(1)[j] == t;
            assert(ts[j + 1] == t);
        }
    }
}

/// Adds one occurrence of `tok` to the collapsed token list: bumps its
/// weight when present, else inserts it at its place in the descending
/// order.
fn add_token(tokens: &mut Vec<Term>, tok: &str, run: Ghost<Seq<Seq<char>>>)
    requires
        collapsed(run@, old(tokens)@),
        run@.len() < u32::MAX,
    ensures
        collapsed(run@.push(tok@), final(tokens)@),
{
    let ghost ts = run@;
    let ghost ts2 = run@.push(tok@);
    let ghost old_toks = old(tokens)@;
    proof {
        lemma_count_push(ts, tok@);
    }
    let (pos, found) = find_pos(tokens, tok);
    if found {
        proof {
            lemma_count_le_len(ts, tok@);
            assert(tokens@[pos as int].freq < u32::MAX);
        }
        let entry = vstd::std_specs::vec::vec_index_mut(tokens, pos);
        let bumped = entry.freq + 1;
        entry.freq = bumped;
        proof {
            let toks = tokens@;
            assert forall|k: int|
                0 <= k < toks.len() implies count_eq(ts2, (#[trigger] toks[k]).token@)
                == toks[k].freq by {
                if k != pos {
                    assert(toks[k] == old_toks[k]);
                    assert(toks[k].token@ != tok@) by {
                        if toks[k].token@ == tok@ {
                            if k < pos {
                                assert(lex_lt(old_toks[pos as int].token@, old_toks[k].token@));
                            } else {
                                assert(lex_lt(old_toks[k].token@, old_toks[pos as int].token@));
                            }
                            lemma_lex_irrefl(tok@);
                        }
                    }
                }
            }
            assert forall|j: int| 0 <= j < ts2.len() implies exists|i: int|
                0 <= i < toks.len() && (#[trigger] ts2[j]) == toks[i].token@ by {
                if j < ts.len() {
                    assert(ts2[j] == ts[j]);
                    let k0 = choose|k: int| 0 <= k < old_toks.len() && ts[j] == old_toks[k].token@;
                    assert(ts2[j] == toks[k0].token@);
                } else {
                    assert(ts2[j] == tok@ && tok@ == toks[pos as int].token@);
                }
            }
            assert forall|i: int, j: int|
                0 <= i < j < toks.len() implies lex_lt(
                #[trigger] toks[j].token@,
                #[trigger] toks[i].token@,
            ) by {
                assert(toks[j].token@ == old_toks[j].token@);
                assert(toks[i].token@ == old_toks[i].token@);
            }
        }
        return ;
    }
    let fresh = Term { token: tok.to_owned(), freq: 1 };
    tokens.insert(pos, fresh);
    proof {
        let toks = tokens@;
        assert forall|a: int, b: int| 0 <= a < b < toks.len() implies lex_lt(
            (#[trigger] toks[b]).token@,
            (#[trigger] toks[a]).token@,
        ) by {
            if b == pos {
                assert(toks[a] == old_toks[a]);
                assert(lex_lt(tok@, old_toks[a].token@));
            } else if a == pos {
                assert(toks[b] == old_toks[b - 1]);
                if b - 1 == pos {
                    assert(lex_lt(old_toks[pos as int].token@, tok@));
                } else {
                    assert(lex_lt(old_toks[b - 1].token@, old_toks[pos as int].token@));
                    assert(lex_lt(old_toks[pos as int].token@, tok@));
                    lemma_lex_trans(old_toks[b - 1].token@, old_toks[pos as int].token@, tok@);
                }
            } else if a < pos && b > pos {
                assert(toks[a] == old_toks[a] && toks[b] == old_toks[b - 1]);
                if b - 1 == pos {
                    assert(lex_lt(old_toks[pos as int].token@, tok@));
                    assert(lex_lt(tok@, old_toks[a].token@));
                    lemma_lex_trans(old_toks[pos as int].token@, tok@, old_toks[a].token@);
                } else {
                    assert(lex_lt(old_toks[b - 1].token@, old_toks[a].token@));
                }
            } else if b < pos {
                assert(toks[a] == old_toks[a] && toks[b] == old_toks[b]);
            } else {
                assert(toks[a] == old_toks[a - 1] && toks[b] == old_toks[b - 1]);
                assert(lex_lt(old_toks[b - 1].token@, old_toks[a - 1].token@));
            }
        }
        assert(count_eq(ts, tok@) == 0) by {
            if count_eq(ts, tok@) != 0 {
                lemma_count_pos_exists(ts, tok@);
                let j = choose|j: int| 0 <= j < ts.len() && ts[j] == tok@;
                let k0 = choose|k: int| 0 <= k < old_toks.len() && ts[j] == old_toks[k].token@;
                assert(old_toks[k0].token@ == tok@);
                if k0 < pos {
                    assert(lex_lt(tok@, old_toks[k0].token@));
                } else {
                    assert(lex_lt(old_toks[k0].token@, tok@)) by {
                        if k0 == pos {
                            assert(lex_lt(old_toks[pos as int].token@, tok@));
                        } else {
                            assert(lex_lt(old_toks[k0].token@, old_toks[pos as int].token@));
                            assert(lex_lt(old_toks[pos as int].token@, tok@));
                            lemma_lex_trans(
                                old_toks[k0].token@,
                                old_toks[pos as int].token@,
                                tok@,
                            );
                        }
                    }
                }
                lemma_lex_irrefl(tok@);
            }
        }
        assert(toks[pos as int].token@ == tok@);
        assert forall|k: int| 0 <= k < toks.len() implies count_eq(ts2, (#[trigger] toks[k]).token@)
            == toks[k].freq by {
            if k != pos {
                let k_old: int = if k < pos {
                    k
                } else {
                    k - 1
                };
                assert(toks[k] == old_toks[k_old]);
                assert(toks[k].token@ != tok@) by {
                    if toks[k].token@ == tok@ {
                        if k < pos {
                            assert(lex_lt(toks[pos as int].token@, toks[k].token@));
                        } else {
                            assert(lex_lt(toks[k].token@, toks[pos as int].token@));
                        }
                        lemma_lex_irrefl(tok@);
                    }
                }
                assert(count_eq(ts, old_toks[k_old].token@) == old_toks[k_old].freq);
            } else {
                assert(count_eq(ts2, tok@) == count_eq(ts, tok@) + 1);
            }
        }
        assert forall|j: int| 0 <= j < ts2.len() implies exists|i: int|
            0 <= i < toks.len() && (#[trigger] ts2[j]) == toks[i].token@ by {
            if j < ts.len() {
                assert(ts2[j] == ts[j]);
                let k0 = choose|k: int| 0 <= k < old_toks.len() && ts[j] == old_toks[k].token@;
                if k0 < pos {
                    assert(ts2[j] == toks[k0].token@);
                } else {
                    assert(ts2[j] == toks[k0 + 1].token@);
                }
            } else {
                assert(ts2[j] == toks[pos as int].token@);
            }
        }
    }
}

impl Query {
    /// Parses a `"<id>:<token>*"` line: the digits before the first `':'`
    /// are the query id, the whitespace-separated tokens after it are
    /// collapsed into unique terms weighted by their number of occurrences,
    /// in descending token order.
    ///
    /// Returns `None` exactly when the line has no `':'`, the id part is
    /// empty or not all digits, or the id does not fit in `usize`.
    pub fn parse_str(s: &str) -> (r: Option<Query>)
        requires
            s@.len() < u32::MAX,
        ensures
            match r {
                Some(q) => {
                    let c = colon_idx(s@);
                    &&& c >= 0
                    &&& all_digits(s@.take(c))
                    &&& s@.take(c).len() > 0
                    &&& q.id == digits_val(s@.take(c))
                    &&& collapsed(split_ws(s@.skip(c + 1)), q.tokens@)
                },
                None => colon_idx(s@) < 0 || !all_digits(s@.take(colon_idx(s@))) || s@.take(
                    colon_idx(s@),
                ).len() == 0 || digits_val(s@.take(colon_idx(s@))) > usize::MAX,
            },
    {
        let n = s.unicode_len();
        // find the first ':'
        let mut c: usize = 0;
        loop
            invariant
                c <= n,
                n == s@.len(),
                forall|i: int| 0 <= i < c ==> s@[i] != ':',
            ensures
                c < n,
                s@[c as int] == ':',
                forall|i: int| 0 <= i < c ==> s@[i] != ':',
            decreases n - c,
        {
            if c >= n {
                proof {
                    lemma_colon_none(s@);
                }
                return None;
            }
            let ch = s.get_char(c);
            if ch == ':' {
                break ;
            }
            c = c + 1;
        }
        proof {
            lemma_colon_at(s@, c as int);
        }
        if c == 0 {
            return None;
        }
        // parse the id digits
        let mut id: usize = 0;
        let mut i: usize = 0;
        proof {
            assert(s@.take(0).len() == 0);
        }
        while i < c
            invariant
                i <= c,
                c < n,
                n == s@.len(),
                colon_idx(s@) == c as int,
                all_digits(s@.take(i as int)),
                id == digits_val(s@.take(i as int)),
            decreases c - i,
        {
            let ch = s.get_char(i);
            if ch < '0' || ch > '9' {
                proof {
                    assert(s@.take(c as int)[i as int] == s@[i as int]);
                    assert(!is_digit(s@.take(c as int)[i as int]));
                }
                return None;
            }
            let d = (ch as u32 - 48) as usize;
            proof {
                assert(s@.take(i as int + 1).drop_last() =~= s@.take(i as int));
                assert(s@.take(i as int + 1).last() == s@[i as int]);
            }
            if id > (usize::MAX - d) / 10 {
                proof {
                    if all_digits(s@.take(c as int)) {
                        lemma_digits_val_grows(s@.take(c as int), i as int + 1);
                        assert(s@.take(i as int + 1) =~= s@.take(c as int).take(i as int + 1));
                        assert(digits_val(s@.take(i as int + 1)) > usize::MAX);
                    }
                }
                return None;
            }
            id = id * 10 + d;
            proof {
                assert(all_digits(s@.take(i as int + 1))) by {
                    assert(forall|j: int|
                        0 <= j < i ==> s@.take(i as int + 1)[j] == #[trigger] s@.take(i as int)[j]);
                    assert(is_digit(s@.take(i as int + 1)[i as int]));
                }
            }
            i = i + 1;
        }
        // split the remainder into tokens and collapse duplicates
        let mut tokens: Vec<Term> = Vec::new();
        let ghost rest = s@.skip(c as int + 1);
        let mut p: usize = c + 1;
        let mut start: usize = p;
        let ghost mut done: Seq<Seq<char>> = Seq::empty();
        proof {
            assert(rest.skip(0) =~= rest);
            assert(rest.subrange(0, 0) =~= Seq::<char>::empty());
            assert(Seq::<Seq<char>>::empty() + split_acc(rest, Seq::empty()) =~= split_acc(
                rest,
                Seq::empty(),
            ));
        }
        while p < n
            invariant
                c < n,
                n == s@.len(),
                n < u32::MAX,
                rest == s@.skip(c as int + 1),
                c + 1 <= start,
                start <= p <= n,
                collapsed(done, tokens@),
                done.len() <= p - c - 1,
                split_ws(rest) == done + split_acc(
                    rest.skip(p - c - 1),
                    rest.subrange(start - c - 1, p - c - 1),
                ),
            decreases n - p,
        {
            let ch = s.get_char(p);
            let ghost cur = rest.subrange(start - c - 1, p - c - 1);
            proof {
                assert(rest.skip(p - c - 1)[0] == rest[p - c - 1]);
                assert(rest[p - c - 1] == s@[p as int]);
                assert(rest.skip(p - c - 1).skip(1) =~= rest.skip(p + 1 - c - 1));
            }
            if is_ws(ch) {
                if start < p {
                    let tok = s.substring_char(start, p);
                    proof {
                        assert(tok@ =~= cur);
                    }
                    add_token(&mut tokens, tok, Ghost(done));
                    proof {
                        assert(split_acc(rest.skip(p - c - 1), cur) == seq![cur] + split_acc(
                            rest.skip(p + 1 - c - 1),
                            Seq::empty(),
                        ));
                        assert(done + (seq![cur] + split_acc(
                            rest.skip(p + 1 - c - 1),
                            Seq::empty(),
                        )) =~= done.push(cur) + split_acc(rest.skip(p + 1 - c - 1), Seq::empty()));
                        done = done.push(cur);
                    }
                }
                start = p + 1;
                proof {
                    assert(rest.subrange(start - c - 1, p + 1 - c - 1) =~= Seq::<char>::empty());
                    assert(cur.len() == 0 ==> cur =~= Seq::<char>::empty());
                }
            } else {
                proof {
                    assert(rest.subrange(start - c - 1, p + 1 - c - 1) =~= cur.push(
                        rest[p - c - 1],
                    ));
                }
            }
            p = p + 1;
        }
        proof {
            assert(rest.skip(p - c - 1).len() == 0);
        }
        if start < n {
            let tok = s.substring_char(start, n);
            let ghost cur = rest.subrange(start - c - 1, p - c - 1);
            proof {
                assert(tok@ =~= cur);
                assert(split_acc(rest.skip(p - c - 1), cur) == seq![cur]);
                assert(done + seq![cur] =~= done.push(cur));
            }
            add_token(&mut tokens, tok, Ghost(done));
            proof {
                done = done.push(cur);
            }
        } else {
            proof {
                assert(rest.subrange(start - c - 1, p - c - 1).len() == 0);
                assert(split_acc(rest.skip(p - c - 1), rest.subrange(start - c - 1, p - c - 1))
                    =~= Seq::<Seq<char>>::empty());
                assert(done + Seq::<Seq<char>>::empty() =~= done);
            }
        }
        proof {
            assert(split_ws(rest) == done);
        }
        Some(Query { id, tokens })
    }

    /// Rescales the weights uniformly into `[1, max_weight]`: when the
    /// largest weight exceeds `max_weight`, each weight `f` becomes
    /// `ceil(max_weight * f / max_f)`; otherwise nothing changes.
    pub fn with_rescale(id: usize, tokens: Vec<Term>, max_weight: usize) -> (r: Self)
        requires
            tokens@.len() > 0,
            1 <= max_weight <= u32::MAX,
            forall|i: int| 0 <= i < tokens@.len() ==> 1 <= (#[trigger] tokens@[i]).freq,
        ensures
            r.id == id,
            rescale_rel(tokens@, r.tokens@, max_weight as int),
            forall|i: int|
                0 <= i < r.tokens@.len() ==> 1 <= (#[trigger] r.tokens@[i]).freq <= max_weight,
    {
        let mut q = Query { id, tokens };
        q.rescale(max_weight);
        q
    }

    /// Rescales the weights in place, as `with_rescale` does.
    pub fn rescale(&mut self, max_weight: usize)
        requires
            old(self).tokens@.len() > 0,
            1 <= max_weight <= u32::MAX,
            forall|i: int|
                0 <= i < old(self).tokens@.len() ==> 1 <= (#[trigger] old(self).tokens@[i]).freq,
        ensures
            final(self).id == old(self).id,
            rescale_rel(old(self).tokens@, final(self).tokens@, max_weight as int),
            forall|i: int|
                0 <= i < final(self).tokens@.len() ==> 1 <= (#[trigger] final(self).tokens@[i]).freq
                    <= max_weight,
    {
        let ghost orig = self.tokens@;
        // find the largest weight
        let mut maxf: u32 = 0;
        let mut i: usize = 0;
        while i < self.tokens.len()
            invariant
                self.tokens@ == orig,
                self.id == old(self).id,
                orig == old(self).tokens@,
                orig.len() > 0,
                i <= orig.len(),
                forall|j: int| 0 <= j < orig.len() ==> 1 <= (#[trigger] orig[j]).freq,
                i > 0 ==> exists|j: int| 0 <= j < i && maxf == (#[trigger] orig[j]).freq,
                forall|j: int| 0 <= j < i ==> (#[trigger] orig[j]).freq <= maxf,
                i == 0 ==> maxf == 0,
            decreases orig.len() - i,
        {
            let f = self.tokens[i].freq;
            if f > maxf {
                maxf = f;
            }
            i = i + 1;
        }
        proof {
            lemma_max_freq_is_max(orig);
            let j0 = choose|j: int| 0 <= j < orig.len() && maxf == (#[trigger] orig[j]).freq;
            let ja = choose|j: int|
                0 <= j < orig.len() && max_freq(orig) == (#[trigger] orig[j]).freq;
            assert(maxf as int == max_freq(orig));
        }
        if maxf as usize <= max_weight {
            return ;
        }
        let mut k: usize = 0;
        while k < self.tokens.len()
            invariant
                self.tokens@.len() == orig.len(),
                self.id == old(self).id,
                orig == old(self).tokens@,
                k <= orig.len(),
                1 <= max_weight <= u32::MAX,
                maxf > max_weight,
                maxf as int == max_freq(orig),
                forall|j: int| 0 <= j < orig.len() ==> 1 <= (#[trigger] orig[j]).freq <= maxf,
                forall|j: int| k <= j < orig.len() ==> (#[trigger] self.tokens@[j]) == orig[j],
                forall|j: int|
                    0 <= j < k ==> (#[trigger] self.tokens@[j]).token == orig[j].token
                        && self.tokens@[j].freq == ceil_scale(
                        orig[j].freq as int,
                        max_weight as int,
                        maxf as int,
                    ) && 1 <= self.tokens@[j].freq <= max_weight,
            decreases orig.len() - k,
        {
            let f = self.tokens[k].freq;
            proof {
                lemma_ceil_scale_bounds(f as int, max_weight as int, maxf as int);
                assert((max_weight as int * f as int) <= 0xffff_ffff * 0xffff_ffff)
                    by (nonlinear_arith)
                    requires
                        0 <= max_weight <= 0xffff_ffff,
                        0 <= f <= 0xffff_ffff,
                ;
            }
            let scaled: u64 = (max_weight as u64 * f as u64 + maxf as u64 - 1) / maxf as u64;
            let nf: u32 = scaled as u32;
            let toks = &mut self.tokens;
            let entry = vstd::std_specs::vec::vec_index_mut(toks, k);
            entry.freq = nf;
            k = k + 1;
        }
    }
}

/// What rescaling promises: tokens are kept in place; weights are unchanged
/// when the largest is within `max_weight`, else ceiling-scaled.
pub open spec fn rescale_rel(old_t: Seq<Term>, new_t: Seq<Term>, max_weight: int) -> bool {
    &&& new_t.len() == old_t.len()
    &&& forall|i: int| 0 <= i < old_t.len() ==> (#[trigger] new_t[i]).token == old_t[i].token
    &&& ({
        let maxf = max_freq(old_t);
        if maxf <= max_weight {
            forall|i: int| 0 <= i < old_t.len() ==> (#[trigger] new_t[i]).freq == old_t[i].freq
        } else {
            forall|i: int|
                0 <= i < old_t.len() ==> (#[trigger] new_t[i]).freq == ceil_scale(
                    old_t[i].freq as int,
                    max_weight,
                    maxf,
                )
        }
    })
}

/// The largest weight among `tokens`.
pub open spec fn max_freq(tokens: Seq<Term>) -> int
    decreases tokens.len(),
{
    if tokens.len() == 0 {
        0
    } else {
        let r = max_freq(tokens.drop_last());
        if tokens.last().freq > r {
            tokens.last().freq as int
        } else {
            r
        }
    }
}

/// `max_freq` bounds every weight and is attained when the list is
/// nonempty.
pub proof fn lemma_max_freq_is_max(tokens: Seq<Term>)
    ensures
        forall|j: int| 0 <= j < tokens.len() ==> (#[trigger] tokens[j]).freq <= max_freq(tokens),
        tokens.len() > 0 ==> exists|j: int|
            0 <= j < tokens.len() && max_freq(tokens) == (#[trigger] tokens[j]).freq,
    decreases tokens.len(),
{
    if tokens.len() > 0 {
        lemma_max_freq_is_max(tokens.drop_last());
        assert(forall|j: int|
            0 <= j < tokens.len() - 1 ==> #[trigger] tokens[j] == tokens.drop_last()[j]);
        if tokens.last().freq > max_freq(tokens.drop_last()) {
            assert(max_freq(tokens) == (tokens[tokens.len() - 1]).freq);
        } else if tokens.len() > 1 {
            let j = choose|j: int|
                0 <= j < tokens.drop_last().len() && max_freq(tokens.drop_last()) == (
                #[trigger] tokens.drop_last()[j]).freq;
            assert(max_freq(tokens) == (tokens[j]).freq);
        } else {
            assert(max_freq(tokens) == (tokens[0]).freq);
        }
    }
}

/// `ceil(max_weight * f / maxf)`.
pub open spec fn ceil_scale(f: int, max_weight: int, maxf: int) -> int {
    (max_weight * f + maxf - 1) / maxf
}

proof fn lemma_ceil_scale_bounds(f: int, max_weight: int, maxf: int)
    requires
        1 <= f <= maxf,
        1 <= max_weight,
    ensures
        1 <= ceil_scale(f, max_weight, maxf) <= max_weight,
{
    let num = max_weight * f + maxf - 1;
    assert(max_weight * f >= 1) by (nonlinear_arith)
        requires
            f >= 1,
            max_weight >= 1,
    ;
    assert(num / maxf >= 1) by (nonlinear_arith)
        requires
            num >= maxf,
            maxf >= 1,
    ;
    assert(max_weight * f <= max_weight * maxf) by (nonlinear_arith)
        requires
            f <= maxf,
            max_weight >= 1,
    ;
    assert(num / maxf <= max_weight) by (nonlinear_arith)
        requires
            num <= max_weight * maxf + maxf - 1,
            maxf >= 1,
    ;
}

/// With no `':'` anywhere, there is no colon position.
proof fn lemma_colon_none(s: Seq<char>)
    requires
        forall|i: int| 0 <= i < s.len() ==> s[i] != ':',
    ensures
        colon_idx(s) < 0,
    decreases s.len(),
{
    if s.len() > 0 {
        assert(forall|i: int| 0 <= i < s.skip(1).len() ==> #[trigger] s.skip(1)[i] == s[i + 1]);
        lemma_colon_none(s.skip(1));
    }
}

/// The first `':'` is the colon position.
proof fn lemma_colon_at(s: Seq<char>, c: int)
    requires
        0 <= c < s.len(),
        s[c] == ':',
        forall|i: int| 0 <= i < c ==> s[i] != ':',
    ensures
        colon_idx(s) == c,
    decreases s.len(),
{
    if c > 0 {
        assert(forall|i: int| 0 <= i < s.skip(1).len() ==> #[trigger] s.skip(1)[i] == s[i + 1]);
        lemma_colon_at(s.skip(1), c - 1);
    }
}

/// A longer digit run denotes at least as large a value.
proof fn lemma_digits_val_grows(s: Seq<char>, i: int)
    requires
        0 <= i <= s.len(),
        all_digits(s),
    ensures
        digits_val(s.take(i)) <= digits_val(s),
        digits_val(s) >= 0,
    decreases s.len(),
{
    if s.len() == 0 {
        assert(s.take(i) =~= s);
    } else {
        assert(all_digits(s.drop_last())) by {
            assert(forall|j: int|
                0 <= j < s.len() - 1 ==> s.drop_last()[j] == #[trigger] s[j]);
        }
        lemma_digits_val_grows(s.drop_last(), if i > s.len() - 1 {
            s.len() - 1
        } else {
            i
        });
        if i == s.len() {
            assert(s.take(i) =~= s);
            assert(digits_val(s) >= digits_val(s.drop_last()));
        } else {
            assert(s.take(i) =~= s.drop_last().take(i));
            assert(digits_val(s) >= digits_val(s.drop_last()));
        }
    }
}

} // verus!
