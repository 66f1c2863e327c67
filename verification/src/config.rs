//! Where the configuration comes from.

use crate::text::same;
use vstd::prelude::*;

verus! {

/// Configuration for the Gfrörli REST API.
#[derive(Debug)]
pub struct GfroerliConfig {
    /// Base URL of the Gfrörli API (e.g. `https://api.gfrör.li`).
    pub api_url: String,
    /// Read-only bearer token for API authentication.
    pub api_key: String,
}

/// Environment variable prefix used for configuration overrides.
pub const ENV_PREFIX: &'static str = "GFROERLI_BOT";

/// Separator for nested configuration values in environment variables.
pub const ENV_SEPARATOR: &'static str = "__";

/// The index of the first `--config` flag, or the length where there is none.
pub open spec fn flag_index(args: Seq<String>) -> nat
    decreases args.len(),
{
    if args.len() == 0 || args[0]@ == "--config"@ {
        0
    } else {
        1 + flag_index(args.drop_first())
    }
}

/// Find the optional `--config <path>` flag among the command-line arguments, without the name of
/// the program.
pub fn parse_args(args: &Vec<String>) -> (path: Result<Option<String>, String>)
    ensures
        ({
            let at = flag_index(args@) as int;
            match path {
                Ok(None) => at == args@.len(),
                Ok(Some(path)) => at + 1 < args@.len() && path@ == args@[at + 1]@,
                Err(message) => at + 1 == args@.len() && message@
                    == "--config requires a path argument"@,
            }
        }),
{
    let mut i: usize = 0;
    assert(args@.skip(0) =~= args@);
    while i < args.len()
        invariant
            i <= args@.len(),
            flag_index(args@) == i + flag_index(args@.skip(i as int)),
        decreases args@.len() - i,
    {
        if same(args[i].as_str(), "--config") {
            return if i + 1 < args.len() {
                Ok(Some(args[i + 1].clone()))
            } else {
                Err("--config requires a path argument".to_string())
            };
        }
        proof {
            assert(args@.skip(i as int).drop_first() =~= args@.skip(i + 1));
        }
        i = i + 1;
    }
    Ok(None)
}

/// The flag that counts is the first one.
pub proof fn law_first_flag_counts(args: Seq<String>)
    ensures
        flag_index(args) <= args.len(),
        flag_index(args) < args.len() ==> args[flag_index(args) as int]@ == "--config"@,
        forall|i: int| 0 <= i < flag_index(args) ==> (#[trigger] args[i])@ != "--config"@,
    decreases args.len(),
{
    if args.len() > 0 && args[0]@ != "--config"@ {
        let rest = args.drop_first();
        law_first_flag_counts(rest);
        assert forall|i: int| 0 <= i < flag_index(args) implies (#[trigger] args[i])@
            != "--config"@ by {
            if i > 0 {
                assert(rest[i - 1] == args[i]);
            }
        }
    }
}

} // verus!
