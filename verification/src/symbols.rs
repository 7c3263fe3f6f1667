//! The symbol normalizer: turns an exchange-native instrument identifier into
//! a canonical `(base, quote)` currency pair.
//!
//! A wrong split silently corrupts the price graph with a bogus currency
//! node, so every stage here — separator split, ranked quote-suffix match,
//! last-three-characters fallback — carries an exact specification.
use crate::text::{
    chars_to_string, ends_with_chars, str_chars, upper_char, upper_seq, upper_vec, vec_range,
};
use vstd::prelude::*;
use vstd::seq_lib::*;

verus! {

/// The ranked list of known quote currencies: longer and more specific
/// stablecoin codes first, then majors, then fiat codes.
pub open spec fn quotes() -> Seq<Seq<char>> {
    seq![
        "USDT"@,
        "BUSD"@,
        "USDC"@,
        "FDUSD"@,
        "TUSD"@,
        "BTC"@,
        "ETH"@,
        "BNB"@,
        "TRY"@,
        "EUR"@,
        "GBP"@,
        "AUD"@,
        "BRL"@,
        "CAD"@,
        "ARS"@,
        "RUB"@,
        "ZAR"@,
        "NGN"@,
        "UAH"@,
        "IDR"@,
        "JPY"@,
        "KRW"@,
        "VND"@,
        "MXN"@,
    ]
}

/// Whether entry `j` of `qs` matches as a quote suffix of `u`, leaving a
/// non-empty base.
pub open spec fn qmatch(qs: Seq<Seq<char>>, u: Seq<char>, j: int) -> bool {
    qs[j].is_suffix_of(u) && u.len() > qs[j].len()
}

/// Index of the first entry of `qs` (from position `i` on) that matches as a
/// quote suffix of `u`; -1 if none does.
pub open spec fn first_suffix(qs: Seq<Seq<char>>, u: Seq<char>, i: nat) -> int
    decreases qs.len() - i,
{
    if i >= qs.len() {
        -1
    } else if qmatch(qs, u, i as int) {
        i as int
    } else {
        first_suffix(qs, u, i + 1)
    }
}

pub open spec fn is_alpha(c: char) -> bool {
    ('A' <= c && c <= 'Z') || ('a' <= c && c <= 'z')
}

/// Whether the last-resort split applies: the identifier is long enough and
/// its last three characters are letters.
pub open spec fn fallback_ok(u: Seq<char>) -> bool {
    u.len() > 6 && is_alpha(u[u.len() - 3]) && is_alpha(u[u.len() - 2]) && is_alpha(
        u[u.len() - 1],
    )
}

/// The suffix-driven split of an (already uppercased) identifier: the first
/// matching known quote, else the last three characters if they look like a
/// currency code.
pub open spec fn dynamic_split_spec(u: Seq<char>) -> Option<(Seq<char>, Seq<char>)> {
    let j = first_suffix(quotes(), u, 0);
    if j >= 0 {
        Some((u.take(u.len() - quotes()[j].len()), quotes()[j]))
    } else if fallback_ok(u) {
        Some((u.take(u.len() - 3), u.skip(u.len() - 3)))
    } else {
        None
    }
}

pub open spec fn is_sep(c: char) -> bool {
    c == '-' || c == '_' || c == '/'
}

/// Index of the first explicit separator in `u`; -1 if there is none.
pub open spec fn first_sep(u: Seq<char>, i: nat) -> int
    decreases u.len() - i,
{
    if i >= u.len() {
        -1
    } else if is_sep(u[i as int]) {
        i as int
    } else {
        first_sep(u, i + 1)
    }
}

/// How often character `c` occurs in `s`.
pub open spec fn count_char(s: Seq<char>, c: char) -> int
    decreases s.len(),
{
    if s.len() == 0 {
        0
    } else {
        count_char(s.drop_last(), c) + if s.last() == c {
            1int
        } else {
            0int
        }
    }
}

/// The normalizer on an already uppercased identifier: a separator that
/// splits the string into exactly two non-empty parts wins; otherwise the
/// ranked suffix match and the fallback decide.
pub open spec fn normalize_spec(u: Seq<char>) -> Option<(Seq<char>, Seq<char>)> {
    let i = first_sep(u, 0);
    if i >= 0 && count_char(u, u[i]) == 1 && 0 < i < u.len() - 1 {
        Some((u.take(i), u.skip(i + 1)))
    } else {
        dynamic_split_spec(u)
    }
}

/// `first_suffix` from 0 equals `first_suffix` from `j` when nothing below
/// `j` matches.
pub(crate) proof fn lemma_first_suffix_from(qs: Seq<Seq<char>>, u: Seq<char>, j: nat)
    requires
        j <= qs.len(),
        forall|k: int| 0 <= k < j ==> !qmatch(qs, u, k),
    ensures
        first_suffix(qs, u, 0) == first_suffix(qs, u, j),
    decreases j,
{
    if j > 0 {
        lemma_first_suffix_from(qs, u, (j - 1) as nat);
    }
}

/// The views of a list of character vectors.
pub open spec fn views(qs: Seq<Vec<char>>) -> Seq<Seq<char>> {
    qs.map_values(|q: Vec<char>| q@)
}

/// Scans `qs` in rank order for the first entry that is a quote suffix of
/// `u` leaving a non-empty base.
pub(crate) fn suffix_scan(qs: &Vec<Vec<char>>, u: &Vec<char>) -> (r: Option<usize>)
    ensures
        match r {
            Some(j) => j < qs@.len() && first_suffix(views(qs@), u@, 0) == j && qmatch(
                views(qs@),
                u@,
                j as int,
            ),
            None => first_suffix(views(qs@), u@, 0) == -1,
        },
{
    let mut j: usize = 0;
    while j < qs.len()
        invariant
            j <= qs@.len(),
            forall|k: int| 0 <= k < j ==> !qmatch(views(qs@), u@, k),
        decreases qs@.len() - j,
    {
        let q: &Vec<char> = &qs[j];
        if u.len() > q.len() && ends_with_chars(u, q) {
            proof {
                assert(views(qs@)[j as int] == q@);
                lemma_first_suffix_from(views(qs@), u@, j as nat);
            }
            return Some(j);
        }
        proof {
            assert(views(qs@)[j as int] == q@);
        }
        j += 1;
    }
    proof {
        lemma_first_suffix_from(views(qs@), u@, qs@.len() as nat);
    }
    None
}

/// The ranked quote list as runtime data; entry `i` reads `quotes()[i]`.
fn quotes_exec() -> (r: Vec<Vec<char>>)
    ensures
        views(r@) == quotes(),
{
    let mut r: Vec<Vec<char>> = Vec::new();
    r.push(str_chars("USDT"));
    r.push(str_chars("BUSD"));
    r.push(str_chars("USDC"));
    r.push(str_chars("FDUSD"));
    r.push(str_chars("TUSD"));
    r.push(str_chars("BTC"));
    r.push(str_chars("ETH"));
    r.push(str_chars("BNB"));
    r.push(str_chars("TRY"));
    r.push(str_chars("EUR"));
    r.push(str_chars("GBP"));
    r.push(str_chars("AUD"));
    r.push(str_chars("BRL"));
    r.push(str_chars("CAD"));
    r.push(str_chars("ARS"));
    r.push(str_chars("RUB"));
    r.push(str_chars("ZAR"));
    r.push(str_chars("NGN"));
    r.push(str_chars("UAH"));
    r.push(str_chars("IDR"));
    r.push(str_chars("JPY"));
    r.push(str_chars("KRW"));
    r.push(str_chars("VND"));
    r.push(str_chars("MXN"));
    proof {
        assert(views(r@) =~= quotes());
    }
    r
}

fn is_alpha_exec(c: char) -> (r: bool)
    ensures
        r == is_alpha(c),
{
    ('A' <= c && c <= 'Z') || ('a' <= c && c <= 'z')
}

/// The suffix stages shared by the normalizer: ranked quote match, then the
/// last-three fallback, on an already uppercased character vector.
fn dynamic_split_chars(u: &Vec<char>) -> (r: Option<(Vec<char>, Vec<char>)>)
    ensures
        match r {
            Some(p) => dynamic_split_spec(u@) == Some((p.0@, p.1@)),
            None => dynamic_split_spec(u@) is None,
        },
{
    let qs = quotes_exec();
    match suffix_scan(&qs, u) {
        Some(j) => {
            let q: &Vec<char> = &qs[j];
            proof {
                assert(views(qs@)[j as int] == q@);
            }
            let base = vec_range(u, 0, u.len() - q.len());
            let quote = vec_range(u, u.len() - q.len(), u.len());
            proof {
                assert(u@.take(u@.len() - q@.len()) =~= u@.subrange(
                    0,
                    u@.len() - q@.len(),
                ));
                assert(q@ =~= u@.subrange(u@.len() - q@.len(), u@.len() as int));
            }
            Some((base, quote))
        },
        None => {
            if u.len() > 6 {
                let n = u.len();
                if is_alpha_exec(u[n - 3]) && is_alpha_exec(u[n - 2]) && is_alpha_exec(
                    u[n - 1],
                ) {
                    let base = vec_range(u, 0, n - 3);
                    let quote = vec_range(u, n - 3, n);
                    proof {
                        assert(u@.take(u@.len() - 3) =~= u@.subrange(0, u@.len() - 3));
                        assert(u@.skip(u@.len() - 3) =~= u@.subrange(
                            u@.len() - 3,
                            u@.len() as int,
                        ));
                    }
                    return Some((base, quote));
                }
                None
            } else {
                None
            }
        },
    }
}

/// Splits an exchange symbol into `(base, quote)` by trying known quote
/// suffixes in rank order, falling back to the last three characters.
///
/// The input is uppercased first; `None` means the tick carrying the symbol
/// is to be discarded.
pub fn dynamic_split_symbol(sym: &str) -> (r: Option<(String, String)>)
    ensures
        match r {
            Some(p) => dynamic_split_spec(upper_seq(sym@)) == Some((p.0@, p.1@)),
            None => dynamic_split_spec(upper_seq(sym@)) is None,
        },
{
    let u = upper_vec(&str_chars(sym));
    match dynamic_split_chars(&u) {
        Some((b, q)) => Some((chars_to_string(&b), chars_to_string(&q))),
        None => None,
    }
}

fn is_sep_exec(c: char) -> (r: bool)
    ensures
        r == is_sep(c),
{
    c == '-' || c == '_' || c == '/'
}

/// `first_sep` from 0 equals `first_sep` from `j` along a separator-free
/// prefix.
proof fn lemma_first_sep_from(u: Seq<char>, j: nat)
    requires
        j <= u.len(),
        forall|k: int| 0 <= k < j ==> !is_sep(u[k]),
    ensures
        first_sep(u, 0) == first_sep(u, j),
    decreases j,
{
    if j > 0 {
        lemma_first_sep_from(u, (j - 1) as nat);
    }
}

fn find_sep(u: &Vec<char>) -> (r: Option<usize>)
    ensures
        match r {
            Some(i) => i < u@.len() && first_sep(u@, 0) == i,
            None => first_sep(u@, 0) == -1,
        },
{
    let mut i: usize = 0;
    while i < u.len()
        invariant
            i <= u@.len(),
            forall|k: int| 0 <= k < i ==> !is_sep(u@[k]),
        decreases u@.len() - i,
    {
        if is_sep_exec(u[i]) {
            proof {
                lemma_first_sep_from(u@, i as nat);
            }
            return Some(i);
        }
        i += 1;
    }
    proof {
        lemma_first_sep_from(u@, u@.len() as nat);
    }
    None
}

proof fn lemma_count_char_take(s: Seq<char>, c: char, i: int)
    requires
        0 <= i <= s.len(),
    ensures
        count_char(s, c) == count_char(s.take(i), c) + count_char(s.skip(i), c),
    decreases s.len() - i,
{
    if i == s.len() {
        assert(s.take(i) =~= s);
        assert(s.skip(i) =~= Seq::<char>::empty());
    } else {
        lemma_count_char_take(s, c, i + 1);
        assert(s.take(i + 1).drop_last() =~= s.take(i));
        assert(s.take(i + 1).last() == s[i]);
        assert(s.skip(i).drop_first() =~= s.skip(i + 1));
        lemma_count_char_front(s.skip(i), c);
    }
}

proof fn lemma_count_char_front(s: Seq<char>, c: char)
    requires
        s.len() > 0,
    ensures
        count_char(s, c) == count_char(s.drop_first(), c) + if s[0] == c {
            1int
        } else {
            0int
        },
    decreases s.len(),
{
    if s.len() == 1 {
        assert(s.drop_last() =~= Seq::<char>::empty());
        assert(s.drop_first() =~= Seq::<char>::empty());
    } else {
        lemma_count_char_front(s.drop_last(), c);
        assert(s.drop_last().drop_first() =~= s.drop_first().drop_last());
        assert(s.drop_last()[0] == s[0]);
        assert(s.drop_first().last() == s.last());
    }
}

fn count_char_exec(u: &Vec<char>, c: char) -> (r: usize)
    ensures
        r == count_char(u@, c),
{
    let mut i: usize = 0;
    let mut r: usize = 0;
    proof {
        assert(u@.take(0) =~= Seq::<char>::empty());
    }
    while i < u.len()
        invariant
            i <= u@.len(),
            r == count_char(u@.take(i as int), c),
            r <= i,
        decreases u@.len() - i,
    {
        proof {
            assert(u@.take(i + 1).drop_last() =~= u@.take(i as int));
            assert(u@.take(i + 1).last() == u@[i as int]);
        }
        if u[i] == c {
            r += 1;
        }
        i += 1;
    }
    proof {
        assert(u@.take(u@.len() as int) =~= u@);
    }
    r
}

/// If `x` and `y` are both suffixes of `s` and `x` is no longer than `y`,
/// then `x` is a suffix of `y`.
pub(crate) proof fn lemma_suffix_of_suffix(x: Seq<char>, y: Seq<char>, s: Seq<char>)
    requires
        x.is_suffix_of(s),
        y.is_suffix_of(s),
        x.len() <= y.len(),
    ensures
        x.is_suffix_of(y),
{
    assert forall|i: int| 0 <= i < x.len() implies x[i] == y[y.len() - x.len() + i] by {
        assert(x[i] == s.subrange((s.len() - x.len()) as int, s.len() as int)[i]);
        assert(y[y.len() - x.len() + i] == s.subrange(
            (s.len() - y.len()) as int,
            s.len() as int,
        )[y.len() - x.len() + i]);
    }
    assert(x =~= y.subrange((y.len() - x.len()) as int, y.len() as int));
}

/// No listed quote currency is a suffix of another: the ranked scan can
/// match at most one entry on any given identifier.
proof fn lemma_quotes_pairwise(a: int, b: int)
    requires
        0 <= a < quotes().len(),
        0 <= b < quotes().len(),
        a != b,
    ensures
        !quotes()[a].is_suffix_of(quotes()[b]),
{
    reveal_strlit("USDT");
    reveal_strlit("BUSD");
    reveal_strlit("USDC");
    reveal_strlit("FDUSD");
    reveal_strlit("TUSD");
    reveal_strlit("BTC");
    reveal_strlit("ETH");
    reveal_strlit("BNB");
    reveal_strlit("TRY");
    reveal_strlit("EUR");
    reveal_strlit("GBP");
    reveal_strlit("AUD");
    reveal_strlit("BRL");
    reveal_strlit("CAD");
    reveal_strlit("ARS");
    reveal_strlit("RUB");
    reveal_strlit("ZAR");
    reveal_strlit("NGN");
    reveal_strlit("UAH");
    reveal_strlit("IDR");
    reveal_strlit("JPY");
    reveal_strlit("KRW");
    reveal_strlit("VND");
    reveal_strlit("MXN");
    if quotes()[a].is_suffix_of(quotes()[b]) {
        let qa = quotes()[a];
        let qb = quotes()[b];
        assert(forall|i: int|
            0 <= i < qa.len() ==> qa[i] == qb.subrange(
                (qb.len() - qa.len()) as int,
                qb.len() as int,
            )[i]);
        assert(qa[0] == qb[qb.len() - qa.len()]);
        assert(qa[qa.len() - 1] == qb[qb.len() - 1]);
        assert(qa.len() >= 2 ==> qa[1] == qb[qb.len() - qa.len() + 1]);
        assert(false);
    }
}

/// The round trip of the ranked suffix stage: gluing a known quote currency
/// onto a non-empty base and splitting again returns exactly that pair.
pub proof fn lemma_suffix_round_trip(base: Seq<char>, quote: Seq<char>)
    requires
        base.len() > 0,
        quotes().contains(quote),
    ensures
        dynamic_split_spec(base + quote) == Some((base, quote)),
{
    let u = base + quote;
    let j = choose|j: int| 0 <= j < quotes().len() && quotes()[j] == quote;
    assert(quote =~= u.subrange((u.len() - quote.len()) as int, u.len() as int));
    assert(qmatch(quotes(), u, j));
    assert forall|k: int| 0 <= k < quotes().len() && k != j implies !qmatch(
        quotes(),
        u,
        k,
    ) by {
        if qmatch(quotes(), u, k) {
            let qk = quotes()[k];
            if qk.len() <= quote.len() {
                lemma_suffix_of_suffix(qk, quote, u);
                lemma_quotes_pairwise(k, j);
            } else {
                lemma_suffix_of_suffix(quote, qk, u);
                lemma_quotes_pairwise(j, k);
            }
        }
    }
    lemma_first_suffix_from(quotes(), u, j as nat);
    assert(first_suffix(quotes(), u, 0) == j);
    assert(u.take(u.len() - quote.len()) =~= base);
}

proof fn lemma_no_sep(u: Seq<char>, i: nat)
    requires
        i <= u.len(),
        forall|k: int| i <= k < u.len() ==> !is_sep(u[k]),
    ensures
        first_sep(u, i) == -1,
    decreases u.len() - i,
{
    if i < u.len() {
        lemma_no_sep(u, i + 1);
    }
}

/// The normalizer's round trip: for an uppercase, separator-free pair whose
/// quote is a listed quote currency, normalizing the glued symbol returns
/// exactly that pair.
pub proof fn lemma_normalize_round_trip(base: Seq<char>, quote: Seq<char>)
    requires
        base.len() > 0,
        quotes().contains(quote),
        forall|k: int| 0 <= k < base.len() ==> !is_sep(#[trigger] base[k]) && upper_char(base[k])
            == base[k],
        forall|k: int| 0 <= k < quote.len() ==> !is_sep(#[trigger] quote[k]) && upper_char(
            quote[k],
        ) == quote[k],
    ensures
        normalize_spec(upper_seq(base + quote)) == Some((base, quote)),
{
    let u = base + quote;
    assert(upper_seq(u) =~= u);
    assert(forall|k: int| 0 <= k < u.len() ==> !is_sep(u[k]));
    lemma_no_sep(u, 0);
    lemma_suffix_round_trip(base, quote);
}

/// Normalizes an exchange-native instrument identifier into a canonical
/// `(base, quote)` pair: uppercase, separator split, ranked quote-suffix
/// match, last-three fallback — in that priority order.
pub fn normalize(raw: &str) -> (r: Option<(String, String)>)
    ensures
        match r {
            Some(p) => normalize_spec(upper_seq(raw@)) == Some((p.0@, p.1@)),
            None => normalize_spec(upper_seq(raw@)) is None,
        },
{
    let u = upper_vec(&str_chars(raw));
    match find_sep(&u) {
        Some(i) => {
            let c = u[i];
            if count_char_exec(&u, c) == 1 && 0 < i && i < u.len() - 1 {
                let base = vec_range(&u, 0, i);
                let quote = vec_range(&u, i + 1, u.len());
                proof {
                    assert(u@.take(i as int) =~= u@.subrange(0, i as int));
                    assert(u@.skip(i + 1) =~= u@.subrange(i + 1, u@.len() as int));
                }
                Some((chars_to_string(&base), chars_to_string(&quote)))
            } else {
                match dynamic_split_chars(&u) {
                    Some((b, q)) => Some((chars_to_string(&b), chars_to_string(&q))),
                    None => None,
                }
            }
        },
        None => {
            match dynamic_split_chars(&u) {
                Some((b, q)) => Some((chars_to_string(&b), chars_to_string(&q))),
                None => None,
            }
        },
    }
}

/// Index of the first occurrence of `c` in `u` (from `i` on); -1 if none.
pub open spec fn first_occ(u: Seq<char>, c: char, i: nat) -> int
    decreases u.len() - i,
{
    if i >= u.len() {
        -1
    } else if u[i as int] == c {
        i as int
    } else {
        first_occ(u, c, i + 1)
    }
}

proof fn lemma_first_occ_from(u: Seq<char>, c: char, j: nat)
    requires
        j <= u.len(),
        forall|k: int| 0 <= k < j ==> u[k] != c,
    ensures
        first_occ(u, c, 0) == first_occ(u, c, j),
    decreases j,
{
    if j > 0 {
        lemma_first_occ_from(u, c, (j - 1) as nat);
    }
}

/// Splitting on a separator that occurs exactly once: the parts before and
/// after it.
pub open spec fn split_once_spec(u: Seq<char>, c: char) -> Option<(Seq<char>, Seq<char>)> {
    let i = first_occ(u, c, 0);
    if i >= 0 && count_char(u, c) == 1 {
        Some((u.take(i), u.skip(i + 1)))
    } else {
        None
    }
}

/// Splits `sym` at a separator character that occurs exactly once in it.
pub fn split_once(sym: &str, c: char) -> (r: Option<(String, String)>)
    ensures
        match r {
            Some(p) => split_once_spec(sym@, c) == Some((p.0@, p.1@)),
            None => split_once_spec(sym@, c) is None,
        },
{
    let u = str_chars(sym);
    let mut i: usize = 0;
    while i < u.len()
        invariant
            i <= u@.len(),
            u@ == sym@,
            forall|k: int| 0 <= k < i ==> u@[k] != c,
        decreases u@.len() - i,
    {
        if u[i] == c {
            proof {
                lemma_first_occ_from(u@, c, i as nat);
            }
            if count_char_exec(&u, c) == 1 {
                let before = vec_range(&u, 0, i);
                let after = vec_range(&u, i + 1, u.len());
                proof {
                    assert(u@.take(i as int) =~= u@.subrange(0, i as int));
                    assert(u@.skip(i + 1) =~= u@.subrange(i + 1, u@.len() as int));
                }
                return Some((chars_to_string(&before), chars_to_string(&after)));
            } else {
                return None;
            }
        }
        i += 1;
    }
    proof {
        lemma_first_occ_from(u@, c, u@.len() as nat);
    }
    None
}

} // verus!
