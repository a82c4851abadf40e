//! Configuration: the device name and the semicolon-separated list of
//! target IPv4 addresses, handed in as plain key/value pairs; the
//! constructor parses the targets and builds the populated consistent-hash
//! table over them.

use vstd::prelude::*;
use vstd::string::StrSliceExecFns;
use crate::consistenthash::{
    backend_perm, fill_table, live_count, live_flags, live_upto, perm_views, Backend,
    ConsistentHash,
};
use crate::error::BrokenRail;
use crate::primes::{is_prime, largest_prime_le, lemma_largest_prime_le_bounds};

verus! {

/// The character is a decimal digit.
pub open spec fn is_digit(c: char) -> bool {
    48 <= c as int <= 57
}

/// The value of a decimal digit.
pub open spec fn digit_val(c: char) -> int {
    c as int - 48
}

/// The index of the first `sep` in `s`, or the length when there is none.
pub open spec fn first_sep(s: Seq<char>, sep: char) -> int
    decreases s.len(),
{
    if s.len() == 0 {
        0
    } else if s[0] == sep {
        0
    } else {
        1 + first_sep(s.drop_first(), sep)
    }
}

/// A position with no separator before it, and a separator (or the end)
/// at it, is the first separator position.
pub proof fn lemma_first_sep(s: Seq<char>, sep: char, i: int)
    requires
        0 <= i <= s.len(),
        forall|j: int| 0 <= j < i ==> s[j] != sep,
        i < s.len() ==> s[i] == sep,
    ensures
        first_sep(s, sep) == i,
    decreases s.len(),
{
    if s.len() > 0 && s[0] != sep {
        lemma_first_sep(s.drop_first(), sep, i - 1);
    }
}

/// Split `s` on `sep`. The empty sequence splits into one empty part, as
/// splitting a string does.
pub open spec fn split_on(s: Seq<char>, sep: char) -> Seq<Seq<char>>
    decreases s.len(),
{
    let i = first_sep(s, sep);
    if i < 0 || i >= s.len() {
        seq![s]
    } else {
        seq![s.take(i)] + split_on(s.skip(i + 1), sep)
    }
}

/// The numeric value of a run of decimal digits.
pub open spec fn octet_val(s: Seq<char>) -> int
    decreases s.len(),
{
    if s.len() == 0 {
        0
    } else {
        octet_val(s.drop_last()) * 10 + digit_val(s.last())
    }
}

/// A valid dotted-quad octet: one to three digits, no leading zero, value
/// at most 255.
pub open spec fn is_octet(s: Seq<char>) -> bool {
    &&& 1 <= s.len() <= 3
    &&& forall|i: int| 0 <= i < s.len() ==> is_digit(#[trigger] s[i])
    &&& (s.len() > 1 ==> s[0] != '0')
    &&& octet_val(s) <= 255
}

/// The IPv4 address that a dotted-quad string denotes, if any.
pub open spec fn parse_ipv4_spec(s: Seq<char>) -> Option<u32> {
    let parts = split_on(s, '.');
    if parts.len() == 4 && is_octet(parts[0]) && is_octet(parts[1]) && is_octet(parts[2])
        && is_octet(parts[3]) {
        Some(
            (octet_val(parts[0]) * 0x1000000 + octet_val(parts[1]) * 0x10000 + octet_val(parts[2])
                * 0x100 + octet_val(parts[3])) as u32,
        )
    } else {
        None
    }
}

/// The value stored under `key`; a later pair overrides an earlier one,
/// as collecting pairs into a map does.
pub open spec fn var_value(vars: Seq<(Seq<char>, Seq<char>)>, key: Seq<char>) -> Option<Seq<char>>
    decreases vars.len(),
{
    if vars.len() == 0 {
        None
    } else if vars.last().0 == key {
        Some(vars.last().1)
    } else {
        var_value(vars.drop_last(), key)
    }
}

/// The views of a vector of string pairs.
pub open spec fn vars_views(vars: Seq<(String, String)>) -> Seq<(Seq<char>, Seq<char>)> {
    Seq::new(vars.len(), |i: int| (vars[i].0@, vars[i].1@))
}

/// Two string slices hold the same characters.
fn str_eq(a: &str, b: &str) -> (r: bool)
    ensures
        r == (a@ == b@),
{
    let na = a.unicode_len();
    let nb = b.unicode_len();
    if na != nb {
        return false;
    }
    let mut i: usize = 0;
    while i < na
        invariant
            na == a@.len(),
            na == b@.len(),
            i <= na,
            forall|j: int| 0 <= j < i ==> a@[j] == b@[j],
        decreases na - i,
    {
        if a.get_char(i) != b.get_char(i) {
            return false;
        }
        i = i + 1;
    }
    proof {
        assert(a@ =~= b@);
    }
    true
}

/// Split a string on a separator character.
#[verifier::loop_isolation(false)]
fn split_string(s: &str, sep: char) -> (parts: Vec<String>)
    ensures
        parts@.len() == split_on(s@, sep).len(),
        forall|i: int| 0 <= i < parts@.len() ==> (#[trigger] parts@[i])@ == split_on(s@, sep)[i],
{
    let n = s.unicode_len();
    let mut parts: Vec<String> = Vec::new();
    let mut p: usize = 0;
    proof {
        assert(s@.skip(0) =~= s@);
    }
    loop
        invariant
            p <= n,
            n == s@.len(),
            ({
                let whole = split_on(s@, sep);
                let rest = split_on(s@.skip(p as int), sep);
                &&& whole.len() == parts@.len() + rest.len()
                &&& forall|i: int|
                    0 <= i < parts@.len() ==> (#[trigger] parts@[i])@ == whole[i]
                &&& forall|i: int|
                    0 <= i < rest.len() ==> rest[i] == whole[parts@.len() + i]
            }),
        decreases n - p,
    {
        // find the next separator at or after `p`
        let mut j: usize = p;
        while j < n && s.get_char(j) != sep
            invariant
                p <= j <= n,
                forall|t: int| p <= t < j ==> s@[t] != sep,
            decreases n - j,
        {
            j = j + 1;
        }
        proof {
            lemma_first_sep(s@.skip(p as int), sep, j - p);
            assert forall|t: int| 0 <= t < j - p implies s@.skip(p as int)[t] != sep by {
                assert(s@.skip(p as int)[t] == s@[t + p]);
            }
            lemma_first_sep(s@.skip(p as int), sep, j - p);
        }
        let part = s.substring_char(p, j);
        parts.push(part.to_owned());
        proof {
            assert(s@.skip(p as int).take(j - p) =~= s@.subrange(p as int, j as int));
        }
        if j == n {
            proof {
                let whole = split_on(s@, sep);
                let prev = split_on(s@.skip(p as int), sep);
                assert(prev =~= seq![s@.skip(p as int)]);
                assert(prev[0] == whole[parts@.len() - 1]);
                assert(s@.skip(p as int) =~= s@.subrange(p as int, j as int));
                assert(parts@.last()@ == whole[parts@.len() - 1]);
            }
            return parts;
        }
        proof {
            assert(s@.skip(p as int).skip(j - p + 1) =~= s@.skip(j + 1));
            let whole = split_on(s@, sep);
            let prev = split_on(s@.skip(p as int), sep);
            let next = split_on(s@.skip(j + 1), sep);
            assert(prev == seq![s@.subrange(p as int, j as int)] + next);
            assert(prev[0] == whole[parts@.len() - 1]);
            assert(prev[0] == s@.subrange(p as int, j as int));
            assert(parts@.last()@ == whole[parts@.len() - 1]);
            assert forall|i: int| 0 <= i < next.len() implies next[i] == whole[parts@.len() + i] by {
                assert(next[i] == prev[i + 1]);
            }
        }
        p = j + 1;
    }
}

/// Parse one decimal octet.
fn parse_octet(s: &str) -> (r: Option<u8>)
    ensures
        match r {
            Some(v) => is_octet(s@) && v == octet_val(s@),
            None => !is_octet(s@),
        },
{
    let n = s.unicode_len();
    if n < 1 || n > 3 {
        return None;
    }
    let first = s.get_char(0);
    if n > 1 && first == '0' {
        return None;
    }
    let mut val: u32 = 0;
    let mut i: usize = 0;
    while i < n
        invariant
            i <= n <= 3,
            n == s@.len(),
            forall|j: int| 0 <= j < i ==> is_digit(#[trigger] s@[j]),
            val == octet_val(s@.take(i as int)),
        decreases n - i,
    {
        let c = s.get_char(i);
        let cv = c as u32;
        if cv < 48 || cv > 57 {
            return None;
        }
        proof {
            lemma_octet_val_bound(s@.take(i as int));
            assert(s@.take(i + 1).drop_last() =~= s@.take(i as int));
            assert(s@.take(i + 1).last() == s@[i as int]);
        }
        val = val * 10 + (cv - 48);
        i = i + 1;
    }
    proof {
        assert(s@.take(n as int) =~= s@);
    }
    if val > 255 {
        return None;
    }
    Some(val as u8)
}

/// Parse a dotted-quad IPv4 address into a 32-bit value in network order.
pub fn parse_ipv4(s: &str) -> (r: Option<u32>)
    ensures
        r == parse_ipv4_spec(s@),
{
    let parts = split_string(s, '.');
    if parts.len() != 4 {
        return None;
    }
    let a = match parse_octet(parts[0].as_str()) {
        Some(v) => v,
        None => {
            return None;
        },
    };
    let b = match parse_octet(parts[1].as_str()) {
        Some(v) => v,
        None => {
            return None;
        },
    };
    let c = match parse_octet(parts[2].as_str()) {
        Some(v) => v,
        None => {
            return None;
        },
    };
    let d = match parse_octet(parts[3].as_str()) {
        Some(v) => v,
        None => {
            return None;
        },
    };
    Some((a as u32) * 0x1000000 + (b as u32) * 0x10000 + (c as u32) * 0x100 + (d as u32))
}

/// Look up the last pair stored under `key` and clone its value.
fn find_var(vars: &Vec<(String, String)>, key: &str) -> (r: Option<String>)
    ensures
        match r {
            Some(v) => var_value(vars_views(vars@), key@) == Some(v@),
            None => var_value(vars_views(vars@), key@) is None,
        },
{
    let mut k: usize = vars.len();
    proof {
        assert(vars_views(vars@).take(vars@.len() as int) =~= vars_views(vars@));
    }
    while k > 0
        invariant
            k <= vars@.len(),
            var_value(vars_views(vars@), key@) == var_value(
                vars_views(vars@).take(k as int),
                key@,
            ),
        decreases k,
    {
        k = k - 1;
        proof {
            assert(vars_views(vars@).take(k + 1).drop_last() =~= vars_views(vars@).take(k as int));
            assert(vars_views(vars@).take(k + 1).last() == vars_views(vars@)[k as int]);
        }
        if str_eq(vars[k].0.as_str(), key) {
            return Some(vars[k].1.clone());
        }
    }
    proof {
        assert(vars_views(vars@).take(0) =~= Seq::<(Seq<char>, Seq<char>)>::empty());
    }
    None
}

/// The forwarder's configuration: the device name, the populated
/// consistent-hash table over the targets, and the raw target list.
pub struct Config {
    pub device: String,
    pub routes: ConsistentHash,
    pub target_ips: Vec<u32>,
}

/// The configuration is acceptable: both variables present, every
/// semicolon-separated target a dotted quad, and the target count small
/// enough for the table to be sized.
pub open spec fn config_ok(vars: Seq<(Seq<char>, Seq<char>)>) -> bool {
    &&& var_value(vars, "RR_DEVICE"@) is Some
    &&& var_value(vars, "RR_TARGET_IPS"@) is Some
    &&& {
        let parts = split_on(var_value(vars, "RR_TARGET_IPS"@)->Some_0, ';');
        &&& forall|i: int|
            0 <= i < parts.len() ==> parse_ipv4_spec(#[trigger] parts[i]) is Some
        &&& 100 * parts.len() <= u32::MAX
        &&& 200 * parts.len() <= usize::MAX
    }
}

impl Config {
    /// Build the configuration from key/value pairs: `RR_DEVICE` names the
    /// interface; `RR_TARGET_IPS` lists the backend IPv4 addresses,
    /// separated by semicolons. One backend is created per target, named
    /// by its dotted-quad text, and the table is populated over them.
    #[verifier::loop_isolation(false)]
    pub fn new(vars: &Vec<(String, String)>) -> (r: Result<Config, BrokenRail>)
        ensures
            r is Ok <==> config_ok(vars_views(vars@)),
            match r {
                Ok(cfg) => ({
                    let parts = split_on(
                        var_value(vars_views(vars@), "RR_TARGET_IPS"@)->Some_0,
                        ';',
                    );
                    let m = largest_prime_le(100 * parts.len());
                    &&& var_value(vars_views(vars@), "RR_DEVICE"@) == Some(cfg.device@)
                    &&& cfg.target_ips@.len() == parts.len()
                    &&& forall|i: int|
                        0 <= i < parts.len() ==> parse_ipv4_spec(#[trigger] parts[i]) == Some(
                            cfg.target_ips@[i],
                        )
                    &&& cfg.routes.backends@.len() == parts.len()
                    &&& forall|i: int|
                        0 <= i < parts.len() ==> {
                            let b = #[trigger] cfg.routes.backends@[i];
                            &&& b.name@ == parts[i]
                            &&& b.live == true
                            &&& b.target == cfg.target_ips@[i]
                            &&& b.permutation@ == backend_perm(parts[i], m as nat)
                        }
                    &&& cfg.routes.lookup@.len() == m
                    &&& is_prime(m as nat)
                    &&& cfg.routes.lookup@ == fill_table(
                        perm_views(cfg.routes.backends@),
                        live_flags(cfg.routes.backends@),
                        m as nat,
                    )
                    &&& forall|k: int|
                        0 <= k < cfg.routes.lookup@.len() ==> (#[trigger] cfg.routes.lookup@[k])
                            < cfg.routes.backends@.len()
                    &&& cfg.routes.wf()
                }),
                Err(e) => e == BrokenRail::MissingConfiguration,
            },
    {
        let device = match find_var(vars, "RR_DEVICE") {
            Some(d) => d,
            None => {
                return Err(BrokenRail::MissingConfiguration);
            },
        };
        let ipstring = match find_var(vars, "RR_TARGET_IPS") {
            Some(v) => v,
            None => {
                return Err(BrokenRail::MissingConfiguration);
            },
        };
        let parts = split_string(ipstring.as_str(), ';');
        let n = parts.len();
        if n > 0xFFFF_FFFFusize / 100 || n > usize::MAX / 200 {
            proof {
                vstd::arithmetic::div_mod::lemma_fundamental_div_mod(usize::MAX as int, 200);
                vstd::arithmetic::div_mod::lemma_fundamental_div_mod(0xFFFF_FFFFint, 100);
                assert(!config_ok(vars_views(vars@)));
            }
            return Err(BrokenRail::MissingConfiguration);
        }
        let mut targets: Vec<u32> = Vec::new();
        let mut hash = ConsistentHash::new();
        let ghost partseq = split_on(ipstring@, ';');
        let mut k: usize = 0;
        while k < n
            invariant
                k <= n,
                n == partseq.len(),
                parts@.len() == n,
                forall|i: int| 0 <= i < n ==> (#[trigger] parts@[i])@ == partseq[i],
                targets@.len() == k,
                hash.backends@.len() == k,
                hash.lookup@.len() == 0,
                forall|i: int|
                    0 <= i < k ==> parse_ipv4_spec(#[trigger] partseq[i]) == Some(targets@[i]),
                forall|i: int|
                    0 <= i < k ==> {
                        let b = #[trigger] hash.backends@[i];
                        &&& b.name@ == partseq[i]
                        &&& b.live == true
                        &&& b.target == targets@[i]
                        &&& b.permutation@ == Seq::<u32>::empty()
                    },
                live_count(hash.backends@) == k,
            decreases n - k,
        {
            let ip = match parse_ipv4(parts[k].as_str()) {
                Some(ip) => ip,
                None => {
                    proof {
                        assert(parse_ipv4_spec(partseq[k as int]) is None);
                        assert(split_on(
                            var_value(vars_views(vars@), "RR_TARGET_IPS"@)->Some_0,
                            ';',
                        ) == partseq);
                        assert(parse_ipv4_spec(
                            split_on(
                                var_value(vars_views(vars@), "RR_TARGET_IPS"@)->Some_0,
                                ';',
                            )[k as int],
                        ) is None);
                        assert(!config_ok(vars_views(vars@)));
                    }
                    return Err(BrokenRail::MissingConfiguration);
                },
            };
            let ghost flags_before = live_flags(hash.backends@);
            targets.push(ip);
            let backend = Backend::new(parts[k].as_str(), ip);
            hash.backends.push(backend);
            proof {
                lemma_live_upto_prefix(flags_before, live_flags(hash.backends@), k as int);
                assert(live_flags(hash.backends@)[k as int] == true);
            }
            k = k + 1;
        }
        proof {
            lemma_split_nonempty(ipstring@, ';');
            assert(live_count(hash.backends@) == n);
            assert(100 * n <= u32::MAX as int);
            assert(200 * n <= usize::MAX as int);
            lemma_largest_prime_le_bounds((100 * n) as nat);
        }
        hash.populate();
        proof {
            lemma_largest_prime_le_bounds((100 * n) as nat);
        }
        Ok(Config { device, routes: hash, target_ips: targets })
    }
}

/// A run of decimal digits of bounded length has a bounded value.
proof fn lemma_octet_val_bound(s: Seq<char>)
    requires
        forall|i: int| 0 <= i < s.len() ==> is_digit(#[trigger] s[i]),
        s.len() <= 3,
    ensures
        octet_val(s) <= (if s.len() == 0 {
            0int
        } else if s.len() == 1 {
            9int
        } else if s.len() == 2 {
            99int
        } else {
            999int
        }),
        0 <= octet_val(s),
    decreases s.len(),
{
    if s.len() > 0 {
        assert(forall|i: int| 0 <= i < s.len() - 1 ==> s.drop_last()[i] == s[i]);
        lemma_octet_val_bound(s.drop_last());
    }
}

/// The live count over a prefix depends only on that prefix.
proof fn lemma_live_upto_prefix(s1: Seq<bool>, s2: Seq<bool>, k: int)
    requires
        0 <= k <= s1.len(),
        k <= s2.len(),
        forall|j: int| 0 <= j < k ==> s1[j] == s2[j],
    ensures
        live_upto(s1, k) == live_upto(s2, k),
    decreases k,
{
    if k > 0 {
        lemma_live_upto_prefix(s1, s2, k - 1);
    }
}

/// Splitting yields at least one part.
proof fn lemma_split_nonempty(s: Seq<char>, sep: char)
    ensures
        split_on(s, sep).len() >= 1,
    decreases s.len(),
{
}

} // verus!
