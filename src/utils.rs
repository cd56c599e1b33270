//! Helpers for request handling: user-agent sniffing and ticker lists.
use vstd::prelude::*;

verus! {

/// What `str::to_lowercase` gives for a sequence of characters.
pub uninterp spec fn lower_of(s: Seq<char>) -> Seq<char>;

/// Relies on `str::to_lowercase`: the result depends on the characters alone.
#[verifier::external_body]
fn lowercase(s: &str) -> (r: String)
    ensures
        r@ == lower_of(s@),
        s@.len() == 0 ==> r@.len() == 0,
{
    s.to_lowercase()
}

/// The user agents (in lower case) of clients that want plain text.
pub open spec fn plaintext_agents() -> Seq<Seq<char>> {
    seq![
        "curl"@,
        "httpie"@,
        "lwp-request"@,
        "wget"@,
        "python-requests"@,
        "openbsd ftp"@,
        "powershell"@,
        "fetch"@,
        "aiohttp"@,
    ]
}

pub const PLAINTEXT_AGENT_COUNT: usize = 9;

fn plaintext_agent(k: usize) -> (r: &'static str)
    requires
        k < PLAINTEXT_AGENT_COUNT,
    ensures
        r@ == plaintext_agents()[k as int],
{
    match k {
        0 => "curl",
        1 => "httpie",
        2 => "lwp-request",
        3 => "wget",
        4 => "python-requests",
        5 => "openbsd ftp",
        6 => "powershell",
        7 => "fetch",
        _ => "aiohttp",
    }
}

/// `p` occurs in `t` starting at position `i`.
pub open spec fn occurs_at(t: Seq<char>, p: Seq<char>, i: int) -> bool {
    0 <= i && i + p.len() <= t.len() && t.subrange(i, i + p.len()) == p
}

/// `p` occurs somewhere in `t`.
pub open spec fn occurs_in(t: Seq<char>, p: Seq<char>) -> bool {
    exists|i: int| occurs_at(t, p, i)
}

/// Whether an already lower-cased user agent names a plain-text client.
pub open spec fn names_plaintext_agent(a: Seq<char>) -> bool {
    exists|k: int| 0 <= k < plaintext_agents().len() && occurs_in(a, #[trigger] plaintext_agents()[k])
}

fn occurs(t: &str, p: &str) -> (r: bool)
    ensures
        r == occurs_in(t@, p@),
{
    let n = t.unicode_len();
    let m = p.unicode_len();
    if m > n {
        return false;
    }
    let mut i: usize = 0;
    while i <= n - m
        invariant
            n == t@.len(),
            m == p@.len(),
            m <= n,
            forall|k: int| 0 <= k < i ==> !occurs_at(t@, p@, k),
        decreases n - m + 1 - i,
    {
        let mut j: usize = 0;
        let mut same = true;
        while j < m && same
            invariant
                n == t@.len(),
                m == p@.len(),
                i + m <= n,
                j <= m,
                forall|l: int| 0 <= l < j ==> t@[i + l] == p@[l],
                !same ==> j < m && t@[i + j] != p@[j as int],
            decreases m - j + if same { 1int } else { 0int },
        {
            if t.get_char(i + j) != p.get_char(j) {
                same = false;
            } else {
                j = j + 1;
            }
        }
        if same {
            assert(t@.subrange(i as int, i + m) =~= p@);
            assert(occurs_at(t@, p@, i as int));
            return true;
        }
        assert(!occurs_at(t@, p@, i as int)) by {
            if occurs_at(t@, p@, i as int) {
                assert(t@.subrange(i as int, i + m)[j as int] == t@[i + j]);
            }
        }
        i = i + 1;
    }
    assert forall|k: int| !occurs_at(t@, p@, k) by {
        if 0 <= k && k + m <= n {
            assert(k < i);
        }
    }
    false
}

/// Whether a user agent that is already in lower case names a plain-text client.
pub fn matches_plaintext_agent(lowered: &str) -> (r: bool)
    ensures
        r == names_plaintext_agent(lowered@),
{
    let mut k: usize = 0;
    while k < PLAINTEXT_AGENT_COUNT
        invariant
            plaintext_agents().len() == PLAINTEXT_AGENT_COUNT,
            forall|q: int| 0 <= q < k ==> !occurs_in(lowered@, #[trigger] plaintext_agents()[q]),
        decreases PLAINTEXT_AGENT_COUNT - k,
    {
        if occurs(lowered, plaintext_agent(k)) {
            return true;
        }
        k = k + 1;
    }
    false
}

/// Whether a user agent, in any case, names a client that wants plain text.
pub fn is_plaintext_agent(agent: &str) -> (r: bool)
    ensures
        r == names_plaintext_agent(lower_of(agent@)),
{
    let lowered = lowercase(agent);
    matches_plaintext_agent(lowered.as_str())
}

/// The pieces joined back together with a comma between each two.
pub open spec fn join_commas(ps: Seq<Seq<char>>) -> Seq<char>
    decreases ps.len(),
{
    if ps.len() == 0 {
        Seq::empty()
    } else if ps.len() == 1 {
        ps[0]
    } else {
        join_commas(ps.drop_last()) + seq![','] + ps.last()
    }
}

pub open spec fn strings_view(v: Seq<String>) -> Seq<Seq<char>> {
    v.map_values(|s: String| s@)
}

proof fn lemma_join_extend(ps: Seq<Seq<char>>, a: Seq<char>, c: char)
    ensures
        join_commas(ps.push(a + seq![c])) == join_commas(ps.push(a)) + seq![c],
{
    let l = ps.push(a + seq![c]);
    let m = ps.push(a);
    assert(l.drop_last() =~= ps);
    assert(m.drop_last() =~= ps);
    if ps.len() == 0 {
        assert(join_commas(l) == l[0]);
        assert(join_commas(m) == m[0]);
    } else {
        assert(join_commas(l) =~= join_commas(ps) + seq![','] + (a + seq![c]));
        assert(join_commas(l) =~= join_commas(m) + seq![c]);
    }
}

proof fn lemma_join_split(ps: Seq<Seq<char>>, a: Seq<char>)
    ensures
        join_commas(ps.push(a).push(Seq::empty())) == join_commas(ps.push(a)) + seq![','],
{
    let l = ps.push(a).push(Seq::<char>::empty());
    assert(l.drop_last() =~= ps.push(a));
    assert(join_commas(l) =~= join_commas(ps.push(a)) + seq![','] + Seq::<char>::empty());
}

/// The comma-separated elements of `s`, in order, each without its commas;
/// an empty text is one empty element.
pub fn comma_separated(s: &str) -> (r: Vec<String>)
    ensures
        r.len() >= 1,
        join_commas(strings_view(r@)) == s@,
        forall|k: int| 0 <= k < r.len() ==> !(#[trigger] r@[k]@).contains(','),
{
    let n = s.unicode_len();
    let mut out: Vec<String> = Vec::new();
    let mut start: usize = 0;
    let mut i: usize = 0;
    while i < n
        invariant
            n == s@.len(),
            start <= i <= n,
            forall|k: int| 0 <= k < out.len() ==> !(#[trigger] out@[k]@).contains(','),
            !s@.subrange(start as int, i as int).contains(','),
            join_commas(strings_view(out@).push(s@.subrange(start as int, i as int))) == s@.subrange(0, i as int),
        decreases n - i,
    {
        let c = s.get_char(i);
        let ghost before = out@;
        if c == ',' {
            let piece = String::from_str(s.substring_char(start, i));
            out.push(piece);
            proof {
                assert(strings_view(out@) =~= strings_view(before).push(s@.subrange(start as int, i as int)));
                lemma_join_split(strings_view(before), s@.subrange(start as int, i as int));
                assert(s@.subrange(0, i + 1) =~= s@.subrange(0, i as int) + seq![',']);
                assert(s@.subrange(i + 1, i + 1) =~= Seq::<char>::empty());
            }
            start = i + 1;
        } else {
            proof {
                lemma_join_extend(strings_view(before), s@.subrange(start as int, i as int), c);
                assert(s@.subrange(start as int, i + 1) =~= s@.subrange(start as int, i as int) + seq![c]);
                assert(s@.subrange(0, i + 1) =~= s@.subrange(0, i as int) + seq![c]);
                assert(!s@.subrange(start as int, i + 1).contains(',')) by {
                    if s@.subrange(start as int, i + 1).contains(',') {
                        let j = choose|j: int| 0 <= j < i + 1 - start && #[trigger] s@.subrange(start as int, i + 1)[j] == ',';
                        if j < i - start {
                            assert(s@.subrange(start as int, i as int)[j] == ',');
                        }
                    }
                }
            }
        }
        i = i + 1;
    }
    let ghost before = out@;
    let last = String::from_str(s.substring_char(start, n));
    out.push(last);
    proof {
        assert(strings_view(out@) =~= strings_view(before).push(s@.subrange(start as int, n as int)));
        assert(s@.subrange(0, n as int) =~= s@);
    }
    out
}

/// The separator between quotes of a batch when none is asked for.
pub fn default_separator() -> (r: String)
    ensures
        r@ == " "@,
{
    String::from_str(" ")
}

/// The number of decimals shown when none is asked for.
pub fn default_precision() -> (r: i8)
    ensures
        r == 2,
{
    2
}

/// Why a list of tickers was refused.
#[derive(Debug, Clone, Copy, PartialEq, Eq, Structural)]
pub enum TickersError {
    /// The list was empty or longer than the batch cap.
    InvalidCount,
}

/// A ticker list is accepted when it holds between one and
/// `crate::client::MAX_BATCH` elements.
pub fn validate_tickers_query<T>(v: &Vec<T>) -> (r: Result<(), TickersError>)
    ensures
        r is Ok <==> 1 <= v.len() <= crate::client::MAX_BATCH,
        r is Err ==> r == Err::<(), TickersError>(TickersError::InvalidCount),
{
    if v.len() < 1 || v.len() > crate::client::MAX_BATCH {
        return Err(TickersError::InvalidCount);
    }
    Ok(())
}

/// The provider's address for one symbol's quote.
pub fn quote_url(base: &str, symbol: &str) -> (r: String)
    ensures
        r@ == base@ + "/stock/"@ + symbol@ + "/quote"@,
{
    let mut r = String::from_str(base);
    r.append("/stock/");
    r.append(symbol);
    r.append("/quote");
    r
}

} // verus!
