//! Requests to the reputation service: where it lives, the credential it
//! expects, and how a request URL is put together.

use vstd::prelude::*;

verus! {

/// Where the reputation service answers and the token it expects, set once
/// at startup and handed to whatever talks to the service.
pub struct ReputationConfig {
    pub endpoint: String,
    pub token: String,
}

/// `key=value`.
pub open spec fn pair_text(key: Seq<char>, value: Seq<char>) -> Seq<char> {
    key + "="@ + value
}

/// The pairs joined by `&`.
pub open spec fn query_text(pairs: Seq<(Seq<char>, Seq<char>)>) -> Seq<char>
    decreases pairs.len(),
{
    if pairs.len() == 0 {
        seq![]
    } else if pairs.len() == 1 {
        pair_text(pairs[0].0, pairs[0].1)
    } else {
        query_text(pairs.drop_last()) + "&"@ + pair_text(pairs.last().0, pairs.last().1)
    }
}

/// The text of each option.
pub open spec fn option_views(options: Seq<(String, String)>) -> Seq<(Seq<char>, Seq<char>)> {
    options.map_values(|p: (String, String)| (p.0@, p.1@))
}

/// The options with the value of the last one replaced by `token`.
pub open spec fn with_token(pairs: Seq<(Seq<char>, Seq<char>)>, token: Seq<char>) -> Seq<
    (Seq<char>, Seq<char>),
> {
    pairs.update(pairs.len() - 1, (pairs.last().0, token))
}

/// The URL of a request for `path` with the query `options`. The last option
/// is the slot of the access token: its key must be `access_token`, and its
/// value is replaced by the configured token.
pub fn url(config: &ReputationConfig, path: &str, options: &Vec<(String, String)>) -> (r: String)
    requires
        options@.len() >= 1,
        options@.last().0@ == "access_token"@,
    ensures
        r@ == config.endpoint@ + path@ + "?"@ + query_text(
            with_token(option_views(options@), config.token@),
        ),
{
    let ghost pairs = with_token(option_views(options@), config.token@);
    let ghost head = config.endpoint@ + path@ + "?"@;
    let mut out = String::new();
    out.append(config.endpoint.as_str());
    out.append(path);
    out.append("?");
    assert(out@ =~= head + query_text(pairs.take(0)));
    let n = options.len();
    let mut i: usize = 0;
    while i < n
        invariant
            n == options@.len(),
            n >= 1,
            i <= n,
            pairs == with_token(option_views(options@), config.token@),
            pairs.len() == n,
            out@ == head + query_text(pairs.take(i as int)),
        decreases n - i,
    {
        let ghost before = out@;
        if i > 0 {
            out.append("&");
        }
        out.append(options[i].0.as_str());
        out.append("=");
        if i + 1 == n {
            out.append(config.token.as_str());
        } else {
            out.append(options[i].1.as_str());
        }
        proof {
            let t = pairs.take(i + 1);
            assert(t.drop_last() =~= pairs.take(i as int));
            assert(t.last() == pairs[i as int]);
            if i == 0 {
                assert(out@ =~= before + pair_text(pairs[0].0, pairs[0].1));
                assert(query_text(pairs.take(0)) =~= seq![]);
            } else {
                assert(out@ =~= before + "&"@ + pair_text(pairs[i as int].0, pairs[i as int].1));
            }
            assert(out@ =~= head + query_text(pairs.take(i + 1)));
        }
        i = i + 1;
    }
    assert(pairs.take(n as int) =~= pairs);
    out
}

} // verus!
