//! The networks that are known from the start, and how a network is
//! written out.

use vstd::prelude::*;
use vstd::string::StrSliceExecFns;
use vstd::string::StringExecFns;
use url::ParseError;
use crate::node_url::{parse_url, url_accepted, NodeUrl};

verus! {

/// The chain id of a local development node.
pub const DEV_CHAIN_ID: u32 = 31337;

/// How often a client of a node tries a request again when the node limits
/// the rate.
pub const MAX_RATE_LIMIT_RETRIES: u32 = 10;

/// How many milliseconds such a client waits before the first new try.
pub const INITIAL_BACKOFF_MILLIS: u64 = 500;

/// How many compute units a second such a client allows itself.
pub const COMPUTE_UNITS_PER_SECOND: u64 = 300;

/// A chain that the wallet can talk to.
#[derive(Debug, Clone, PartialEq, Eq)]
pub struct Network {
    pub name: String,
    pub chain_id: u32,
    pub explorer_url: Option<String>,
    pub http_url: String,
    pub ws_url: Option<String>,
    pub currency: String,
    pub decimals: u32,
}

/// What a network holds.
pub struct NetworkView {
    pub name: Seq<char>,
    pub chain_id: u32,
    pub explorer_url: Option<Seq<char>>,
    pub http_url: Seq<char>,
    pub ws_url: Option<Seq<char>>,
    pub currency: Seq<char>,
    pub decimals: u32,
}

/// What an optional text holds.
pub open spec fn text_view(text: Option<String>) -> Option<Seq<char>> {
    match text {
        Some(t) => Some(t@),
        None => None,
    }
}

impl View for Network {
    type V = NetworkView;

    open spec fn view(&self) -> NetworkView {
        NetworkView {
            name: self.name@,
            chain_id: self.chain_id,
            explorer_url: text_view(self.explorer_url),
            http_url: self.http_url@,
            ws_url: text_view(self.ws_url),
            currency: self.currency@,
            decimals: self.decimals,
        }
    }
}

/// The character for a digit below sixteen, in lower case.
pub open spec fn digit_char(d: int) -> char {
    if d == 0 {
        '0'
    } else if d == 1 {
        '1'
    } else if d == 2 {
        '2'
    } else if d == 3 {
        '3'
    } else if d == 4 {
        '4'
    } else if d == 5 {
        '5'
    } else if d == 6 {
        '6'
    } else if d == 7 {
        '7'
    } else if d == 8 {
        '8'
    } else if d == 9 {
        '9'
    } else if d == 10 {
        'a'
    } else if d == 11 {
        'b'
    } else if d == 12 {
        'c'
    } else if d == 13 {
        'd'
    } else if d == 14 {
        'e'
    } else {
        'f'
    }
}

/// The digits of `n` in the given base, the most significant first, without
/// leading zeros; a single `0` for zero.
pub open spec fn digits(n: nat, base: nat) -> Seq<char>
    recommends
        2 <= base <= 16,
    decreases n,
{
    if n < base || base < 2 {
        seq![digit_char(n as int)]
    } else {
        proof {
            assert(n / base < n) by (nonlinear_arith)
                requires
                    2 <= base <= n,
            ;
        }
        digits(n / base, base).push(digit_char((n % base) as int))
    }
}

/// The characters for the given digits, the last digit first.
pub open spec fn reversed_digits(ds: Seq<u32>) -> Seq<char> {
    Seq::new(ds.len(), |i: int| digit_char(ds[ds.len() - 1 - i] as int))
}

/// `s` with every occurrence of `pattern` from position `from` on replaced
/// by `with`. Occurrences are looked for from left to right, and the search
/// goes on behind each one that was replaced.
pub open spec fn replaced_from(s: Seq<char>, pattern: Seq<char>, with: Seq<char>, from: int) -> Seq<char>
    decreases s.len() - from,
{
    if from < 0 || from >= s.len() {
        Seq::empty()
    } else if pattern.len() > 0 && from + pattern.len() <= s.len() && s.subrange(from, from + pattern.len())
        == pattern {
        with + replaced_from(s, pattern, with, from + pattern.len())
    } else {
        seq![s[from]] + replaced_from(s, pattern, with, from + 1)
    }
}

/// `url` with every `http` replaced by `ws`.
pub open spec fn http_to_ws(url: Seq<char>) -> Seq<char> {
    replaced_from(url, seq!['h', 't', 't', 'p'], seq!['w', 's'], 0)
}

/// The name under which the current network is kept as long as nothing
/// has been saved.
pub fn default_current_name() -> (r: String)
    ensures
        r@ == "mainnet"@,
{
    "mainnet".to_owned()
}

/// The text for one digit.
fn digit_text(d: u32) -> (r: &'static str)
    requires
        d < 16,
    ensures
        r@ == seq![digit_char(d as int)],
{
    proof {
        reveal_strlit("0");
        reveal_strlit("1");
        reveal_strlit("2");
        reveal_strlit("3");
        reveal_strlit("4");
        reveal_strlit("5");
        reveal_strlit("6");
        reveal_strlit("7");
        reveal_strlit("8");
        reveal_strlit("9");
        reveal_strlit("a");
        reveal_strlit("b");
        reveal_strlit("c");
        reveal_strlit("d");
        reveal_strlit("e");
        reveal_strlit("f");
    }
    let r = if d == 0 {
        "0"
    } else if d == 1 {
        "1"
    } else if d == 2 {
        "2"
    } else if d == 3 {
        "3"
    } else if d == 4 {
        "4"
    } else if d == 5 {
        "5"
    } else if d == 6 {
        "6"
    } else if d == 7 {
        "7"
    } else if d == 8 {
        "8"
    } else if d == 9 {
        "9"
    } else if d == 10 {
        "a"
    } else if d == 11 {
        "b"
    } else if d == 12 {
        "c"
    } else if d == 13 {
        "d"
    } else if d == 14 {
        "e"
    } else {
        "f"
    };
    assert(r@ =~= seq![digit_char(d as int)]);
    r
}

/// Appends the digits of `n` in the given base to `out`.
fn push_digits(out: &mut String, n: u32, base: u32)
    requires
        2 <= base <= 16,
    ensures
        final(out)@ == old(out)@ + digits(n as nat, base as nat),
{
    let mut low: Vec<u32> = Vec::new();
    let mut rest = n;
    while rest >= base
        invariant
            2 <= base <= 16,
            forall|i: int| 0 <= i < low@.len() ==> low@[i] < 16,
            digits(n as nat, base as nat) == digits(rest as nat, base as nat) + reversed_digits(low@),
        decreases rest,
    {
        let ghost before = low@;
        let d = rest % base;
        low.push(d);
        proof {
            let head = digits((rest / base) as nat, base as nat);
            assert(digits(rest as nat, base as nat) == head.push(digit_char(d as int)));
            assert(head.push(digit_char(d as int)) + reversed_digits(before) =~= head + reversed_digits(low@));
        }
        rest = rest / base;
    }
    let ghost start = out@;
    let ghost tail = reversed_digits(low@);
    out.append(digit_text(rest));
    assert(digits(rest as nat, base as nat) == seq![digit_char(rest as int)]);
    let mut j: usize = low.len();
    while j > 0
        invariant
            j <= low@.len(),
            forall|i: int| 0 <= i < low@.len() ==> low@[i] < 16,
            tail == reversed_digits(low@),
            out@ == start + seq![digit_char(rest as int)] + tail.subrange(0, low@.len() - j),
        decreases j,
    {
        j -= 1;
        let ghost before = out@;
        out.append(digit_text(low[j]));
        proof {
            let k = low@.len() - 1 - j;
            assert(tail[k] == digit_char(low@[j as int] as int));
            assert(tail.subrange(0, k + 1) =~= tail.subrange(0, k).push(tail[k]));
            assert(out@ =~= start + seq![digit_char(rest as int)] + tail.subrange(0, k + 1));
        }
    }
    proof {
        assert(tail.subrange(0, low@.len() as int) =~= tail);
        assert(out@ =~= start + digits(n as nat, base as nat));
    }
}

impl Network {
    /// What `mainnet` gives.
    pub open spec fn mainnet_view() -> NetworkView {
        NetworkView {
            name: "Mainnet"@,
            chain_id: 1,
            explorer_url: Some("https://etherscan.io/search?q="@),
            http_url: "https://eth.llamarpc.com"@,
            ws_url: None,
            currency: "ETH"@,
            decimals: 18,
        }
    }

    /// What `sepolia` gives.
    pub open spec fn sepolia_view() -> NetworkView {
        NetworkView {
            name: "Sepolia"@,
            chain_id: 11155111,
            explorer_url: Some("https://sepolia.etherscan.io/search?q="@),
            http_url: "https://ethereum-sepolia-rpc.publicnode.com"@,
            ws_url: None,
            currency: "ETH"@,
            decimals: 18,
        }
    }

    /// What `anvil` gives.
    pub open spec fn anvil_view() -> NetworkView {
        NetworkView {
            name: "Anvil"@,
            chain_id: 31337,
            explorer_url: None,
            http_url: "http://localhost:8545"@,
            ws_url: Some("ws://localhost:8545"@),
            currency: "ETH"@,
            decimals: 18,
        }
    }

    /// The Ethereum main network.
    pub fn mainnet() -> (n: Network)
        ensures
            n@ == Self::mainnet_view(),
    {
        Network {
            name: "Mainnet".to_owned(),
            chain_id: 1,
            explorer_url: Some("https://etherscan.io/search?q=".to_owned()),
            http_url: "https://eth.llamarpc.com".to_owned(),
            ws_url: None,
            currency: "ETH".to_owned(),
            decimals: 18,
        }
    }

    /// The Sepolia test network.
    pub fn sepolia() -> (n: Network)
        ensures
            n@ == Self::sepolia_view(),
    {
        Network {
            name: "Sepolia".to_owned(),
            chain_id: 11155111,
            explorer_url: Some("https://sepolia.etherscan.io/search?q=".to_owned()),
            http_url: "https://ethereum-sepolia-rpc.publicnode.com".to_owned(),
            ws_url: None,
            currency: "ETH".to_owned(),
            decimals: 18,
        }
    }

    /// A local development node.
    pub fn anvil() -> (n: Network)
        ensures
            n@ == Self::anvil_view(),
    {
        Network {
            name: "Anvil".to_owned(),
            chain_id: 31337,
            explorer_url: None,
            http_url: "http://localhost:8545".to_owned(),
            ws_url: Some("ws://localhost:8545".to_owned()),
            currency: "ETH".to_owned(),
            decimals: 18,
        }
    }

    /// The networks that are known from the start: the development node,
    /// the main network and the test network, in this order.
    pub fn all_default() -> (all: Vec<Network>)
        ensures
            all@.len() == 3,
            all@[0]@ == Self::anvil_view(),
            all@[1]@ == Self::mainnet_view(),
            all@[2]@ == Self::sepolia_view(),
    {
        let mut all: Vec<Network> = Vec::new();
        all.push(Self::anvil());
        all.push(Self::mainnet());
        all.push(Self::sepolia());
        all
    }

    /// The chain id in hexadecimal: `0x`, then the digits in lower case
    /// without leading zeros.
    pub fn chain_id_hex(&self) -> (r: String)
        ensures
            r@ == seq!['0', 'x'] + digits(self.chain_id as nat, 16),
    {
        proof {
            reveal_strlit("0x");
        }
        let mut r = "0x".to_owned();
        assert(r@ =~= seq!['0', 'x']);
        push_digits(&mut r, self.chain_id, 16);
        r
    }

    /// The address for websocket connections: the one that is set, else the
    /// HTTP address with every `http` in it replaced by `ws`.
    pub fn ws_url(&self) -> (r: String)
        ensures
            r@ == match self@.ws_url {
                Some(url) => url,
                None => http_to_ws(self@.http_url),
            },
    {
        match &self.ws_url {
            Some(url) => url.clone(),
            None => {
                let s = self.http_url.as_str();
                let n = s.unicode_len();
                let ghost pattern = seq!['h', 't', 't', 'p'];
                let ghost with = seq!['w', 's'];
                proof {
                    reveal_strlit("ws");
                    assert("ws"@ =~= with);
                }
                let mut out = String::new();
                let mut i: usize = 0;
                while i < n
                    invariant
                        i <= n,
                        n == s@.len(),
                        pattern == seq!['h', 't', 't', 'p'],
                        with == seq!['w', 's'],
                        "ws"@ == with,
                        out@ + replaced_from(s@, pattern, with, i as int) == replaced_from(s@, pattern, with, 0),
                    decreases n - i,
                {
                    let ghost before = out@;
                    if n - i >= 4 && s.get_char(i) == 'h' && s.get_char(i + 1) == 't' && s.get_char(i + 2) == 't'
                        && s.get_char(i + 3) == 'p' {
                        assert(s@.subrange(i as int, i + 4) =~= pattern);
                        out.append("ws");
                        assert(out@ + replaced_from(s@, pattern, with, i + 4) =~= before + (with + replaced_from(
                            s@,
                            pattern,
                            with,
                            i + 4,
                        )));
                        i += 4;
                    } else {
                        proof {
                            if i + 4 <= n {
                                let sub = s@.subrange(i as int, i + 4);
                                assert(sub[0] == s@[i as int]);
                                assert(sub[1] == s@[i + 1]);
                                assert(sub[2] == s@[i + 2]);
                                assert(sub[3] == s@[i + 3]);
                                assert(pattern[0] == 'h' && pattern[1] == 't' && pattern[2] == 't' && pattern[3]
                                    == 'p');
                                assert(sub != pattern);
                            }
                        }
                        out.append(s.substring_char(i, i + 1));
                        assert(s@.subrange(i as int, i + 1) =~= seq![s@[i as int]]);
                        assert(out@ + replaced_from(s@, pattern, with, i + 1) =~= before + (seq![s@[i as int]]
                            + replaced_from(s@, pattern, with, i + 1)));
                        i += 1;
                    }
                }
                assert(out@ =~= replaced_from(s@, pattern, with, 0));
                out
            },
        }
    }

    /// The HTTP address as a URL, for a client to connect to, together
    /// with the text of the address. Where the address that is configured
    /// is no URL, the error of the `url` crate comes back.
    pub fn provider_url(&self) -> (r: Result<NodeUrl, ParseError>)
        ensures
            r is Ok == url_accepted(self.http_url@),
            r matches Ok(u) ==> u@ == self.http_url@,
    {
        parse_url(self.http_url.clone())
    }

    /// Whether the network is a development node: it has the chain id of
    /// one, or the node at its address answers as one. The caller asks the
    /// node and hands in what it found.
    pub fn is_dev(&self, answers_as_dev_node: bool) -> (r: bool)
        ensures
            r == (self.chain_id == DEV_CHAIN_ID || answers_as_dev_node),
    {
        self.chain_id == DEV_CHAIN_ID || answers_as_dev_node
    }

    /// The network written out: the chain id in decimal, a hyphen, and the
    /// name.
    pub fn to_text(&self) -> (r: String)
        ensures
            r@ == digits(self.chain_id as nat, 10) + seq!['-'] + self.name@,
    {
        proof {
            reveal_strlit("-");
        }
        let mut r = String::new();
        push_digits(&mut r, self.chain_id, 10);
        r.append("-");
        assert("-"@ =~= seq!['-']);
        r.append(self.name.as_str());
        assert(r@ =~= digits(self.chain_id as nat, 10) + seq!['-'] + self.name@);
        r
    }
}

} // verus!
