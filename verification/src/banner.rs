//! What the engine says of itself.

use vstd::prelude::*;
use vstd::string::*;

use crate::text::{join, join3};

verus! {

/// What Ruby code sees in `RUBY_ENGINE`.
pub const ENGINE: &'static str = "spinel";

/// The engine's own version: `RUBY_ENGINE_VERSION`.
pub const ENGINE_VERSION: &'static str = "0.0.1";

/// The version of the language: `RUBY_VERSION`.
pub const LANGUAGE_VERSION: &'static str = "4.0.0";

/// How RubyGems spells a processor on a system.
pub open spec fn arch_name(arch: Seq<char>, os: Seq<char>) -> Seq<char> {
    if arch == "aarch64"@ && os == "macos"@ {
        "arm64"@
    } else {
        arch
    }
}

/// How RubyGems spells a system.
pub open spec fn os_name(os: Seq<char>) -> Seq<char> {
    if os == "macos"@ {
        "darwin"@
    } else {
        os
    }
}

/// How RubyGems spells a platform.
pub open spec fn platform_name(arch: Seq<char>, os: Seq<char>) -> Seq<char> {
    arch_name(arch, os) + "-"@ + os_name(os)
}

/// The banner for a platform.
pub open spec fn banner(platform: Seq<char>) -> Seq<char> {
    ENGINE@ + " "@ + ENGINE_VERSION@ + " (ruby "@ + LANGUAGE_VERSION@ + ") ["@ + platform + "]"@
}

/// The platform of a processor and a system, as RubyGems spells it.
pub fn platform(arch: &str, os: &str) -> (r: String)
    ensures
        r@ == platform_name(arch@, os@),
{
    let system: String = os.to_owned();
    let processor: String = arch.to_owned();
    let mac: bool = system == "macos".to_owned();
    let arm: bool = processor == "aarch64".to_owned();
    join3(
        if arm && mac {
            "arm64"
        } else {
            arch
        },
        "-",
        if mac {
            "darwin"
        } else {
            os
        },
    )
}

/// The one-line banner for a platform, in the shape of `ruby -v`.
pub fn description(platform: &str) -> (r: String)
    ensures
        r@ == banner(platform@),
{
    let engine: String = join3(ENGINE, " ", ENGINE_VERSION);
    let language: String = join3(" (ruby ", LANGUAGE_VERSION, ") [");
    let names: String = join(engine.as_str(), language.as_str());
    let r: String = join3(names.as_str(), platform, "]");
    assert(r@ =~= banner(platform@));
    r
}

} // verus!
