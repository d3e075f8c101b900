//! Where traces go, and where the configuration of tracing is.

use vstd::prelude::*;
use crate::text::{chars_of, ends, join2, text_ends, text_span};

verus! {

/// The configuration of tracing.
#[derive(Debug)]
pub struct TracingConfig {
    pub enabled: bool,
    /// The base address of the collector.
    pub endpoint: String,
    pub service_name: String,
}

impl Default for TracingConfig {
    /// Tracing is off; the collector is on this machine.
    fn default() -> (r: Self)
        ensures
            !r.enabled,
            r.endpoint@ == "http://localhost:4318"@,
            r.service_name@ == "fleets"@,
    {
        TracingConfig {
            enabled: false,
            endpoint: default_endpoint(),
            service_name: default_service_name(),
        }
    }
}

/// The address that is used where none is configured.
pub fn default_endpoint() -> (r: String)
    ensures
        r@ == "http://localhost:4318"@,
{
    "http://localhost:4318".to_owned()
}

/// The name that is used where none is configured.
pub fn default_service_name() -> (r: String)
    ensures
        r@ == "fleets"@,
{
    "fleets".to_owned()
}

/// An address without slashes at its end.
pub open spec fn without_slashes(s: Seq<char>) -> Seq<char>
    decreases s.len(),
{
    if s.len() > 0 && s.last() == '/' {
        without_slashes(s.drop_last())
    } else {
        s
    }
}

/// The address for traces: the base address with `/v1/traces` behind it, once.
pub open spec fn traces_address(base: Seq<char>) -> Seq<char> {
    let b = without_slashes(base);
    if ends(b, "/v1/traces"@) {
        b
    } else {
        b + "/v1/traces"@
    }
}

/// The address for traces.
pub fn traces_endpoint(base: &str) -> (r: String)
    ensures
        r@ == traces_address(base@),
{
    let cs = chars_of(base);
    let mut n: usize = cs.len();
    assert(cs@.take(n as int) =~= cs@);
    while n > 0 && cs[n - 1] == '/'
        invariant
            n <= cs.len(),
            without_slashes(cs@.take(n as int)) == without_slashes(cs@),
        decreases n,
    {
        assert(cs@.take(n as int).drop_last() =~= cs@.take(n - 1));
        n -= 1;
    }
    let b = text_span(&cs, 0, n);
    assert(b@ =~= cs@.take(n as int));
    if text_ends(b.as_str(), "/v1/traces") {
        b
    } else {
        join2(b.as_str(), "/v1/traces")
    }
}

/// Adding the path for traces twice is adding it once.
pub proof fn law_traces_address_fixed(base: Seq<char>)
    ensures
        traces_address(traces_address(base)) == traces_address(base),
{
    let a = traces_address(base);
    let b = without_slashes(base);
    let p = "/v1/traces"@;
    reveal_strlit("/v1/traces");
    assert(p.len() == 10 && p[9] == 's');
    lemma_without_slashes(base);
    if ends(b, p) {
        assert(b.skip(b.len() - p.len())[9] == b.last());
    } else {
        assert((b + p).skip(b.len() as int) =~= p);
        assert((b + p).last() == 's');
    }
}

proof fn lemma_without_slashes(s: Seq<char>)
    ensures
        without_slashes(without_slashes(s)) == without_slashes(s),
    decreases s.len(),
{
    if s.len() > 0 && s.last() == '/' {
        lemma_without_slashes(s.drop_last());
    }
}

/// Where the base directory of configurations is found.
#[derive(Debug, Clone, Copy, PartialEq, Eq, Structural)]
pub enum ConfigBase {
    /// `XDG_CONFIG_HOME` names it.
    Xdg,
    /// It is `.config` in the home directory.
    Home,
    /// Nowhere.
    Nowhere,
}

/// Decides where the base directory of configurations is: `xdg` says whether
/// `XDG_CONFIG_HOME` is set and not empty, `home` whether `HOME` is set.
pub fn config_base(xdg: bool, home: bool) -> (r: ConfigBase)
    ensures
        r == (if xdg {
            ConfigBase::Xdg
        } else if home {
            ConfigBase::Home
        } else {
            ConfigBase::Nowhere
        }),
{
    if xdg {
        ConfigBase::Xdg
    } else if home {
        ConfigBase::Home
    } else {
        ConfigBase::Nowhere
    }
}

} // verus!
