use vstd::prelude::*;
use crate::ip::{IpAddress, Ipv4Address, Ipv6Address, parse_ip, parse_ip_chars};
use crate::text::{trim_chars, trim_str};

verus! {

/// Why one resolution attempt yielded no address.
#[derive(Clone, Copy, PartialEq, Eq, Structural, Debug)]
pub enum IpQueryError {
    /// Two endpoints returned differing parsed addresses.
    ConsensusMismatch { first: IpAddress, conflict: IpAddress },
    /// Too few endpoints returned a parsable address.
    NoIpAvailable,
}

/// The address parsed from one endpoint's outcome: `None` stands for an
/// unreachable endpoint or an unreadable body, and a body that does not
/// parse as an address (after trimming) counts the same way.
pub open spec fn response_addr(r: Option<Seq<char>>) -> Option<IpAddress> {
    match r {
        Some(t) => parse_ip_chars(trim_chars(t)),
        None => None,
    }
}

pub open spec fn parsed_responses(rs: Seq<Option<Seq<char>>>) -> Seq<Option<IpAddress>> {
    rs.map_values(|r: Option<Seq<char>>| response_addr(r))
}

/// One resolution attempt resumed at endpoint `i`, with `cur` the first
/// accepted address and `n` the concurring responses so far. A response
/// that differs from `cur` aborts at once with a disagreement; otherwise
/// strictly more than `min` concurring responses are required.
pub open spec fn consensus_from(
    parsed: Seq<Option<IpAddress>>,
    i: int,
    cur: Option<IpAddress>,
    n: nat,
    min: nat,
) -> Result<IpAddress, IpQueryError>
    decreases parsed.len() - i,
{
    if i < 0 || i >= parsed.len() {
        match cur {
            Some(a) => if n > min {
                Ok(a)
            } else {
                Err(IpQueryError::NoIpAvailable)
            },
            None => Err(IpQueryError::NoIpAvailable),
        }
    } else {
        match parsed[i] {
            None => consensus_from(parsed, i + 1, cur, n, min),
            Some(a) => match cur {
                None => consensus_from(parsed, i + 1, Some(a), 1, min),
                Some(c) => if a == c {
                    consensus_from(parsed, i + 1, cur, n + 1, min)
                } else {
                    Err((IpQueryError::ConsensusMismatch { first: c, conflict: a }))
                },
            },
        }
    }
}

/// What one whole resolution attempt over the endpoints' parsed responses
/// yields.
pub open spec fn consensus_spec(parsed: Seq<Option<IpAddress>>, min: nat) -> Result<
    IpAddress,
    IpQueryError,
> {
    consensus_from(parsed, 0, None, 0, min)
}

/// One consensus resolution attempt over the endpoints' outcomes, given in
/// endpoint order; `None` marks an endpoint that could not be fetched.
pub fn query_ip_providers(responses: &Vec<Option<String>>, min_agreement: usize) -> (r: Result<
    IpAddress,
    IpQueryError,
>)
    ensures
        r == consensus_spec(parsed_responses(responses.deep_view()), min_agreement as nat),
{
    let ghost rs = responses.deep_view();
    let ghost parsed = parsed_responses(rs);
    let mut addr: Option<IpAddress> = None;
    let mut n_agreement: usize = 0;
    let mut i: usize = 0;
    while i < responses.len()
        invariant
            i <= responses@.len(),
            rs == responses.deep_view(),
            parsed == parsed_responses(rs),
            rs.len() == responses@.len(),
            n_agreement <= i,
            consensus_spec(parsed, min_agreement as nat) == consensus_from(
                parsed,
                i as int,
                addr,
                n_agreement as nat,
                min_agreement as nat,
            ),
        decreases responses@.len() - i,
    {
        proof {
            assert(rs[i as int] == responses@[i as int].deep_view());
            assert(parsed[i as int] == response_addr(rs[i as int]));
        }
        let resp: &Option<String> = &responses[i];
        let parsed_here: Option<IpAddress> = match resp {
            Some(text) => {
                let trimmed = trim_str(text.as_str());
                let got = parse_ip(trimmed);
                proof {
                    assert(rs[i as int] == Some(text@));
                    assert(parsed[i as int] == got);
                }
                got
            },
            None => {
                proof {
                    assert(parsed[i as int] is None);
                }
                None
            },
        };
        match parsed_here {
            None => {},
            Some(new_ip) => match addr {
                None => {
                    addr = Some(new_ip);
                    n_agreement = 1;
                },
                Some(current) => {
                    if current == new_ip {
                        n_agreement = n_agreement + 1;
                    } else {
                        return Err(
                            (IpQueryError::ConsensusMismatch { first: current, conflict: new_ip }),
                        );
                    }
                },
            },
        }
        i = i + 1;
    }
    match addr {
        Some(ip) => {
            if n_agreement > min_agreement {
                Ok(ip)
            } else {
                Err(IpQueryError::NoIpAvailable)
            }
        },
        None => Err(IpQueryError::NoIpAvailable),
    }
}

/// How many endpoints yielded a parsed address.
pub open spec fn count_somes(s: Seq<Option<IpAddress>>) -> nat
    decreases s.len(),
{
    if s.len() == 0 {
        0
    } else {
        (if s[0] is Some {
            1nat
        } else {
            0nat
        }) + count_somes(s.drop_first())
    }
}

proof fn lemma_consensus_all_agree_from(
    parsed: Seq<Option<IpAddress>>,
    i: int,
    cur: Option<IpAddress>,
    n: nat,
    min: nat,
    a: IpAddress,
)
    requires
        0 <= i <= parsed.len(),
        forall|j: int| i <= j < parsed.len() ==> #[trigger] parsed[j] == Some(a) || parsed[j] is None,
        cur is Some ==> cur == Some(a),
    ensures
        cur == Some(a) ==> consensus_from(parsed, i, cur, n, min) == (if n + count_somes(
            parsed.skip(i),
        ) > min {
            Ok::<IpAddress, IpQueryError>(a)
        } else {
            Err::<IpAddress, IpQueryError>(IpQueryError::NoIpAvailable)
        }),
        cur is None ==> consensus_from(parsed, i, cur, n, min) == (if count_somes(parsed.skip(i))
            > min {
            Ok::<IpAddress, IpQueryError>(a)
        } else {
            Err::<IpAddress, IpQueryError>(IpQueryError::NoIpAvailable)
        }),
    decreases parsed.len() - i,
{
    if i == parsed.len() {
        assert(parsed.skip(i).len() == 0);
    } else {
        assert(parsed.skip(i)[0] == parsed[i]);
        assert(parsed.skip(i).drop_first() =~= parsed.skip(i + 1));
        match parsed[i] {
            None => {
                lemma_consensus_all_agree_from(parsed, i + 1, cur, n, min, a);
            },
            Some(v) => {
                assert(v == a);
                match cur {
                    None => {
                        lemma_consensus_all_agree_from(parsed, i + 1, Some(a), 1, min, a);
                    },
                    Some(c) => {
                        lemma_consensus_all_agree_from(parsed, i + 1, cur, n + 1, min, a);
                    },
                }
            },
        }
    }
}

/// Law: when every endpoint that yields a parsed address yields the same
/// address, and strictly more than `min` endpoints do so, the attempt
/// resolves to that address.
pub proof fn lemma_consensus_agreement(parsed: Seq<Option<IpAddress>>, min: nat, a: IpAddress)
    requires
        forall|j: int| 0 <= j < parsed.len() ==> #[trigger] parsed[j] == Some(a) || parsed[j] is None,
        count_somes(parsed) > min,
    ensures
        consensus_spec(parsed, min) == Ok::<IpAddress, IpQueryError>(a),
{
    lemma_consensus_all_agree_from(parsed, 0, None, 0, min, a);
    assert(parsed.skip(0) =~= parsed);
}

/// Whether some endpoint at or after `i` yielded exactly the address `v`.
pub open spec fn appears_from(parsed: Seq<Option<IpAddress>>, i: int, v: IpAddress) -> bool {
    exists|j: int| i <= j < parsed.len() && #[trigger] parsed[j] == Some(v)
}

/// The disagreement error naming the first accepted address and the
/// conflicting one.
pub open spec fn mismatch_err(first: IpAddress, conflict: IpAddress) -> Result<
    IpAddress,
    IpQueryError,
> {
    Err((IpQueryError::ConsensusMismatch { first: first, conflict: conflict }))
}

/// Whether, resuming at `i` with first accepted address `cur`, two of the
/// addresses in play still differ.
pub open spec fn has_conflict_from(
    parsed: Seq<Option<IpAddress>>,
    i: int,
    cur: Option<IpAddress>,
) -> bool {
    ||| (cur is Some && exists|j: int|
        i <= j < parsed.len() && #[trigger] parsed[j] is Some && parsed[j] != cur)
    ||| (exists|j1: int, j2: int|
        i <= j1 < j2 < parsed.len() && #[trigger] parsed[j1] is Some && #[trigger] parsed[j2]
            is Some && parsed[j1] != parsed[j2])
}

proof fn lemma_appears_widen(parsed: Seq<Option<IpAddress>>, i: int, i2: int, v: IpAddress)
    requires
        i <= i2,
        appears_from(parsed, i2, v),
    ensures
        appears_from(parsed, i, v),
{
    let j = choose|j: int| i2 <= j < parsed.len() && #[trigger] parsed[j] == Some(v);
    assert(i <= j < parsed.len() && parsed[j] == Some(v));
}

proof fn lemma_consensus_mismatch_from(
    parsed: Seq<Option<IpAddress>>,
    i: int,
    cur: Option<IpAddress>,
    n: nat,
    min: nat,
)
    requires
        0 <= i <= parsed.len(),
        has_conflict_from(parsed, i, cur),
    ensures
        exists|f: IpAddress, c2: IpAddress|
            {
                &&& consensus_from(parsed, i, cur, n, min) == #[trigger] mismatch_err(f, c2)
                &&& f != c2
                &&& (cur == Some(f) || appears_from(parsed, i, f))
                &&& #[trigger] appears_from(parsed, i, c2)
            },
    decreases parsed.len() - i,
{
    assert(i < parsed.len()) by {
        if cur is Some && (exists|j: int|
            i <= j < parsed.len() && #[trigger] parsed[j] is Some && parsed[j] != cur) {
            let j = choose|j: int|
                i <= j < parsed.len() && #[trigger] parsed[j] is Some && parsed[j] != cur;
        } else {
            let (j1, j2) = choose|j1: int, j2: int|
                i <= j1 < j2 < parsed.len() && #[trigger] parsed[j1] is Some && #[trigger] parsed[j2]
                    is Some && parsed[j1] != parsed[j2];
        }
    }
    match parsed[i] {
        None => {
            assert(has_conflict_from(parsed, i + 1, cur)) by {
                if cur is Some && (exists|j: int|
                    i <= j < parsed.len() && #[trigger] parsed[j] is Some && parsed[j] != cur) {
                    let j = choose|j: int|
                        i <= j < parsed.len() && #[trigger] parsed[j] is Some && parsed[j] != cur;
                    assert(j != i);
                    assert(i + 1 <= j < parsed.len() && parsed[j] is Some && parsed[j] != cur);
                } else {
                    let (j1, j2) = choose|j1: int, j2: int|
                        i <= j1 < j2 < parsed.len() && #[trigger] parsed[j1] is Some
                            && #[trigger] parsed[j2] is Some && parsed[j1] != parsed[j2];
                    assert(j1 != i);
                    assert(i + 1 <= j1 < j2 < parsed.len() && parsed[j1] is Some && parsed[j2]
                        is Some && parsed[j1] != parsed[j2]);
                }
            }
            lemma_consensus_mismatch_from(parsed, i + 1, cur, n, min);
            let (f, c2) = choose|f: IpAddress, c2: IpAddress|
                {
                    &&& consensus_from(parsed, i + 1, cur, n, min) == #[trigger] mismatch_err(f, c2)
                    &&& f != c2
                    &&& (cur == Some(f) || appears_from(parsed, i + 1, f))
                    &&& #[trigger] appears_from(parsed, i + 1, c2)
                };
            if cur != Some(f) {
                lemma_appears_widen(parsed, i, i + 1, f);
            }
            lemma_appears_widen(parsed, i, i + 1, c2);
        },
        Some(v) => {
            match cur {
                None => {
                    assert(has_conflict_from(parsed, i + 1, Some(v))) by {
                        let (j1, j2) = choose|j1: int, j2: int|
                            i <= j1 < j2 < parsed.len() && #[trigger] parsed[j1] is Some
                                && #[trigger] parsed[j2] is Some && parsed[j1] != parsed[j2];
                        if j1 == i {
                            assert(parsed[j2] is Some && parsed[j2] != Some(v));
                            assert(i + 1 <= j2 < parsed.len() && Some(v) == Some(v) && parsed[j2]
                                is Some && parsed[j2] != Some(v));
                        } else {
                            assert(i + 1 <= j1 < j2 < parsed.len() && parsed[j1] is Some
                                && parsed[j2] is Some && parsed[j1] != parsed[j2]);
                        }
                    }
                    lemma_consensus_mismatch_from(parsed, i + 1, Some(v), 1, min);
                    let (f, c2) = choose|f: IpAddress, c2: IpAddress|
                        {
                            &&& consensus_from(parsed, i + 1, Some(v), 1, min) == #[trigger] mismatch_err(f, c2)
                            &&& f != c2
                            &&& (Some(v) == Some(f) || appears_from(parsed, i + 1, f))
                            &&& #[trigger] appears_from(parsed, i + 1, c2)
                        };
                    if Some(v) == Some::<IpAddress>(f) {
                        assert(parsed[i] == Some(f));
                        assert(appears_from(parsed, i, f));
                    } else {
                        lemma_appears_widen(parsed, i, i + 1, f);
                    }
                    lemma_appears_widen(parsed, i, i + 1, c2);
                },
                Some(c) => {
                    if v != c {
                        assert(parsed[i] == Some(v));
                        assert(appears_from(parsed, i, v));
                        assert({
                            &&& consensus_from(parsed, i, cur, n, min) == mismatch_err(c, v)
                            &&& c != v
                            &&& (cur == Some(c) || appears_from(parsed, i, c))
                            &&& appears_from(parsed, i, v)
                        });
                    } else {
                        assert(has_conflict_from(parsed, i + 1, cur)) by {
                            if cur is Some && (exists|j: int|
                                i <= j < parsed.len() && #[trigger] parsed[j] is Some && parsed[j]
                                    != cur) {
                                let j = choose|j: int|
                                    i <= j < parsed.len() && #[trigger] parsed[j] is Some
                                        && parsed[j] != cur;
                                assert(j != i);
                                assert(i + 1 <= j < parsed.len() && parsed[j] is Some && parsed[j]
                                    != cur);
                            } else {
                                let (j1, j2) = choose|j1: int, j2: int|
                                    i <= j1 < j2 < parsed.len() && #[trigger] parsed[j1] is Some
                                        && #[trigger] parsed[j2] is Some && parsed[j1]
                                        != parsed[j2];
                                if j1 == i {
                                    assert(i + 1 <= j2 < parsed.len() && cur == Some(c)
                                        && parsed[j2] is Some && parsed[j2] != Some(c));
                                } else {
                                    assert(i + 1 <= j1 < j2 < parsed.len() && parsed[j1] is Some
                                        && parsed[j2] is Some && parsed[j1] != parsed[j2]);
                                }
                            }
                        }
                        lemma_consensus_mismatch_from(parsed, i + 1, cur, n + 1, min);
                        let (f, c2) = choose|f: IpAddress, c2: IpAddress|
                            {
                                &&& consensus_from(parsed, i + 1, cur, n + 1, min)
                                    == #[trigger] mismatch_err(f, c2)
                                &&& f != c2
                                &&& (cur == Some(f) || appears_from(parsed, i + 1, f))
                                &&& #[trigger] appears_from(parsed, i + 1, c2)
                            };
                        if cur != Some(f) {
                            lemma_appears_widen(parsed, i, i + 1, f);
                        }
                        lemma_appears_widen(parsed, i, i + 1, c2);
                    }
                },
            }
        },
    }
}

/// Law: if two endpoints' parsed addresses differ within one attempt, the
/// attempt fails with a disagreement error naming two differing addresses
/// that endpoints actually returned, however many endpoints follow the
/// conflicting pair.
pub proof fn lemma_consensus_disagreement(
    parsed: Seq<Option<IpAddress>>,
    min: nat,
    j1: int,
    j2: int,
)
    requires
        0 <= j1 < j2 < parsed.len(),
        parsed[j1] is Some,
        parsed[j2] is Some,
        parsed[j1] != parsed[j2],
    ensures
        exists|f: IpAddress, c2: IpAddress|
            {
                &&& consensus_spec(parsed, min) == #[trigger] mismatch_err(f, c2)
                &&& f != c2
                &&& appears_from(parsed, 0, f)
                &&& #[trigger] appears_from(parsed, 0, c2)
            },
{
    assert(has_conflict_from(parsed, 0, None::<IpAddress>)) by {
        assert(0 <= j1 < j2 < parsed.len() && parsed[j1] is Some && parsed[j2] is Some
            && parsed[j1] != parsed[j2]);
    }
    lemma_consensus_mismatch_from(parsed, 0, None, 0, min);
    let (f, c2) = choose|f: IpAddress, c2: IpAddress|
        {
            &&& consensus_from(parsed, 0, None::<IpAddress>, 0, min) == #[trigger] mismatch_err(f, c2)
            &&& f != c2
            &&& (None::<IpAddress> == Some(f) || appears_from(parsed, 0, f))
            &&& #[trigger] appears_from(parsed, 0, c2)
        };
    assert(appears_from(parsed, 0, f));
}

/// Whether no two parsed responses differ.
pub open spec fn no_disagreement(parsed: Seq<Option<IpAddress>>) -> bool {
    forall|j1: int, j2: int|
        0 <= j1 < parsed.len() && 0 <= j2 < parsed.len() && #[trigger] parsed[j1] is Some
            && #[trigger] parsed[j2] is Some ==> parsed[j1] == parsed[j2]
}

/// Law: with at most `min` parsable responses and no disagreement among
/// them, the attempt fails with "no address available".
pub proof fn lemma_consensus_insufficient(parsed: Seq<Option<IpAddress>>, min: nat)
    requires
        count_somes(parsed) <= min,
        no_disagreement(parsed),
    ensures
        consensus_spec(parsed, min) == Err::<IpAddress, IpQueryError>(IpQueryError::NoIpAvailable),
{
    if exists|j: int| 0 <= j < parsed.len() && #[trigger] parsed[j] is Some {
        let j = choose|j: int| 0 <= j < parsed.len() && #[trigger] parsed[j] is Some;
        let a = choose|a: IpAddress| parsed[j] == Some(a);
        assert(parsed[j] == Some(a));
        assert forall|k: int|
            0 <= k < parsed.len() implies #[trigger] parsed[k] == Some(a) || parsed[k] is None by {
            if parsed[k] is Some {
                assert(parsed[k] == parsed[j]);
            }
        }
        lemma_consensus_all_agree_from(parsed, 0, None, 0, min, a);
    } else {
        let a = arbitrary::<IpAddress>();
        assert forall|k: int|
            0 <= k < parsed.len() implies #[trigger] parsed[k] == Some(a) || parsed[k] is None by {
            assert(!(parsed[k] is Some));
        }
        lemma_consensus_all_agree_from(parsed, 0, None, 0, min, a);
    }
    assert(parsed.skip(0) =~= parsed);
}

/// The per-attempt outcomes of running one consensus resolution over each
/// attempt's endpoint outcomes.
pub open spec fn attempt_outcomes(atts: Seq<Seq<Option<Seq<char>>>>, min: nat) -> Seq<
    Result<IpAddress, IpQueryError>,
> {
    atts.map_values(|rs: Seq<Option<Seq<char>>>| consensus_spec(parsed_responses(rs), min))
}

/// The first attempt that resolved, if any.
pub open spec fn first_success(outcomes: Seq<Result<IpAddress, IpQueryError>>) -> Option<IpAddress>
    decreases outcomes.len(),
{
    if outcomes.len() == 0 {
        None
    } else {
        match outcomes[0] {
            Ok(a) => Some(a),
            Err(_) => first_success(outcomes.drop_first()),
        }
    }
}

/// The retry wrapper: one consensus resolution per attempt, in order, each
/// over that attempt's endpoint outcomes; the first agreed address wins,
/// and failures do not change the endpoints or add any backoff. One entry
/// of `attempts` stands for each permitted attempt, so exhausting them all
/// yields `None` after exactly that many attempts.
pub fn query_with_retries(attempts: &Vec<Vec<Option<String>>>, min_agreement: usize) -> (r: Option<
    IpAddress,
>)
    ensures
        r == first_success(attempt_outcomes(attempts.deep_view(), min_agreement as nat)),
{
    let ghost av = attempts.deep_view();
    let ghost outcomes = attempt_outcomes(av, min_agreement as nat);
    let mut i: usize = 0;
    proof {
        assert(av.len() == attempts@.len());
        assert(outcomes.skip(0) =~= outcomes);
    }
    while i < attempts.len()
        invariant
            i <= attempts@.len(),
            av == attempts.deep_view(),
            av.len() == attempts@.len(),
            outcomes == attempt_outcomes(av, min_agreement as nat),
            first_success(outcomes) == first_success(outcomes.skip(i as int)),
        decreases attempts@.len() - i,
    {
        let result = query_ip_providers(&attempts[i], min_agreement);
        proof {
            assert(av[i as int] == attempts@[i as int].deep_view());
            assert(outcomes[i as int] == consensus_spec(
                parsed_responses(av[i as int]),
                min_agreement as nat,
            ));
            assert(outcomes.skip(i as int)[0] == outcomes[i as int]);
            assert(outcomes.skip(i as int).drop_first() =~= outcomes.skip(i as int + 1));
        }
        match result {
            Ok(found) => {
                return Some(found);
            },
            Err(_) => {},
        }
        i = i + 1;
    }
    proof {
        assert(outcomes.skip(av.len() as int).len() == 0);
    }
    None
}

/// Law: if the first `k` attempts fail and attempt `k` (one of the
/// permitted attempts) resolves to `a`, the retry wrapper returns `Some(a)`.
pub proof fn lemma_retry_eventual_success(
    outcomes: Seq<Result<IpAddress, IpQueryError>>,
    k: int,
    a: IpAddress,
)
    requires
        0 <= k < outcomes.len(),
        forall|i: int| 0 <= i < k ==> #[trigger] outcomes[i] is Err,
        outcomes[k] == Ok::<IpAddress, IpQueryError>(a),
    ensures
        first_success(outcomes) == Some(a),
    decreases k,
{
    if k == 0 {
    } else {
        assert(outcomes[0] is Err);
        assert forall|i: int| 0 <= i < k - 1 implies #[trigger] outcomes.drop_first()[i]
            is Err by {
            assert(outcomes.drop_first()[i] == outcomes[i + 1]);
        }
        assert(outcomes.drop_first()[k - 1] == outcomes[k]);
        lemma_retry_eventual_success(outcomes.drop_first(), k - 1, a);
    }
}

/// Law: if every permitted attempt fails, the retry wrapper returns `None`.
pub proof fn lemma_retry_exhausted(outcomes: Seq<Result<IpAddress, IpQueryError>>)
    requires
        forall|i: int| 0 <= i < outcomes.len() ==> #[trigger] outcomes[i] is Err,
    ensures
        first_success(outcomes) == None::<IpAddress>,
    decreases outcomes.len(),
{
    if outcomes.len() == 0 {
    } else {
        assert forall|i: int| 0 <= i < outcomes.len() - 1 implies #[trigger] outcomes.drop_first()[i]
            is Err by {
            assert(outcomes.drop_first()[i] == outcomes[i + 1]);
        }
        lemma_retry_exhausted(outcomes.drop_first());
    }
}

/// Keeps a discovered address only if it is IPv4.
pub open spec fn keep_v4(r: Option<IpAddress>) -> Option<Ipv4Address> {
    match r {
        Some(IpAddress::V4(a)) => Some(a),
        _ => None,
    }
}

/// Keeps a discovered address only if it is IPv6.
pub open spec fn keep_v6(r: Option<IpAddress>) -> Option<Ipv6Address> {
    match r {
        Some(IpAddress::V6(a)) => Some(a),
        _ => None,
    }
}

/// Dual-stack discovery: the retry wrapper run once per family, entirely
/// independently, keeping only an address of the family the endpoints are
/// meant to return. A failure of one family never affects the other.
pub fn get_supported_public_ips(
    v4_attempts: &Vec<Vec<Option<String>>>,
    v6_attempts: &Vec<Vec<Option<String>>>,
    min_agreement: usize,
) -> (r: (Option<Ipv4Address>, Option<Ipv6Address>))
    ensures
        r.0 == keep_v4(
            first_success(attempt_outcomes(v4_attempts.deep_view(), min_agreement as nat)),
        ),
        r.1 == keep_v6(
            first_success(attempt_outcomes(v6_attempts.deep_view(), min_agreement as nat)),
        ),
{
    let r4 = query_with_retries(v4_attempts, min_agreement);
    let ipv4 = match r4 {
        Some(IpAddress::V4(a)) => Some(a),
        _ => None,
    };
    let r6 = query_with_retries(v6_attempts, min_agreement);
    let ipv6 = match r6 {
        Some(IpAddress::V6(a)) => Some(a),
        _ => None,
    };
    (ipv4, ipv6)
}

} // verus!
